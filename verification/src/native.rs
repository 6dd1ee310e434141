//! An engine as its arbiter sees it: what its process did, and what that makes of its move.
use vstd::prelude::*;

use crate::failure::bucket;
use crate::text::{
    chars, contains, cut, decimal, either, join, occurs_at, push_all, push_decimal, same, split,
    split_either, string, texts, trim, trimmed,
};

verus! {

/// The budget of a move, in core cycles.
pub const MOVE_CYCLES: u64 = 150_000;

/// What a measurement may exceed the budget by: it brackets a wakeup that the engine cannot
/// observe.
pub const GRACE: u64 = 2_000;

/// The most reference ticks that loading may take: ten moves' worth.
pub const INIT_TICKS: u64 = 1_500_000;

/// How long a reply may take before the engine counts as hung.
pub const REPLY_TIMEOUT_MS: i32 = 5_000;

// ----------------------------------------------------------------------- how it ended

/// `libc::WIFSIGNALED`: whether a wait status tells of a death by a signal, which is when
/// its low seven bits are neither all clear nor all set.
#[verifier::external_body]
fn was_signaled(status: i32) -> (r: bool)
    ensures
        r == (1 <= (status & 0x7f) <= 126),
{
    libc::WIFSIGNALED(status)
}

/// `libc::WTERMSIG`: the low seven bits of a wait status.
#[verifier::external_body]
fn signal_of(status: i32) -> (r: i32)
    ensures
        r == status & 0x7f,
{
    libc::WTERMSIG(status)
}

/// `libc::WEXITSTATUS`: the second byte of a wait status.
#[verifier::external_body]
fn code_of(status: i32) -> (r: i32)
    ensures
        r == (status >> 8) & 0xff,
{
    libc::WEXITSTATUS(status)
}

/// The numbers that the `libc` crate gives, for x86-64 Linux, to the signals `SIGSEGV`,
/// `SIGBUS`, `SIGILL`, `SIGFPE`, `SIGABRT`, `SIGSYS` and `SIGKILL`.
#[verifier::external_body]
fn signal_numbers() -> (r: [i32; 7])
    ensures
        r@ == seq![11i32, 7, 4, 8, 6, 31, 9],
{
    [
        libc::SIGSEGV,
        libc::SIGBUS,
        libc::SIGILL,
        libc::SIGFPE,
        libc::SIGABRT,
        libc::SIGSYS,
        libc::SIGKILL,
    ]
}

/// What a signal means.
pub open spec fn signal_text(s: int) -> Seq<char> {
    if s == 11 {
        "SIGSEGV - bad pointer"@
    } else if s == 7 {
        "SIGBUS"@
    } else if s == 4 {
        "SIGILL"@
    } else if s == 8 {
        "SIGFPE"@
    } else if s == 6 {
        "SIGABRT - panic or assertion"@
    } else if s == 31 {
        "SIGSYS - blocked syscall (tried to fork or spawn a thread?)"@
    } else if s == 9 {
        "SIGKILL - killed, out of memory?"@
    } else {
        "unknown signal"@
    }
}

/// How a process ended, by its wait status.
pub open spec fn exit_text(status: i32) -> Seq<char> {
    let s = status & 0x7f;
    if 1 <= s <= 126 {
        "crashed with signal "@ + decimal(s as nat) + " ("@ + signal_text(s as int) + ")"@
    } else {
        "exited with status "@ + decimal(((status >> 8) & 0xff) as nat)
    }
}

/// How a process ended, by its wait status.
pub fn describe_exit(status: i32) -> (r: String)
    ensures
        r@ == exit_text(status),
{
    proof {
        assert(0 <= (status & 0x7f) <= 127 && 0 <= ((status >> 8) & 0xff) <= 255) by (bit_vector);
    }
    if was_signaled(status) {
        let s = signal_of(status);
        let n = signal_numbers();
        let what = if s == n[0] {
            "SIGSEGV - bad pointer"
        } else if s == n[1] {
            "SIGBUS"
        } else if s == n[2] {
            "SIGILL"
        } else if s == n[3] {
            "SIGFPE"
        } else if s == n[4] {
            "SIGABRT - panic or assertion"
        } else if s == n[5] {
            "SIGSYS - blocked syscall (tried to fork or spawn a thread?)"
        } else if s == n[6] {
            "SIGKILL - killed, out of memory?"
        } else {
            "unknown signal"
        };
        let mut r = "crashed with signal ".to_owned();
        push_decimal(&mut r, s as u128);
        r.append(" (");
        r.append(what);
        r.append(")");
        r
    } else {
        let mut r = "exited with status ".to_owned();
        push_decimal(&mut r, code_of(status) as u128);
        r
    }
}

// -------------------------------------------------------------------------- one move

/// What an engine answered.
#[derive(Debug)]
pub enum MoveOut {
    Move(u16),
    Forfeit(String),
}

/// An answer with its text as characters.
pub enum Answer {
    Move(u16),
    Forfeit(Seq<char>),
}

impl MoveOut {
    pub open spec fn view(&self) -> Answer {
        match *self {
            MoveOut::Move(m) => Answer::Move(m),
            MoveOut::Forfeit(why) => Answer::Forfeit(why@),
        }
    }
}

/// What a request for a move came to.
pub enum Reply {
    /// The engine acknowledged: what the cycle counter showed before and after, and the move
    /// word it left.
    Answered(u64, u64, u16),
    /// No acknowledgement came in time.
    Hung,
    /// The pipe broke: the wait status of the process, if it ended.
    Broken(Option<i32>),
}

/// An engine between moves.
pub struct Engine {
    pub name: String,
    /// What the last move cost; zero when nothing was measured.
    pub last_cycles: u64,
    /// Set when a game begins, carried on the next move.
    pub pending_new_game: bool,
    /// What loading cost.
    pub load_cycles: u64,
    /// Why the engine cannot be asked any more.
    pub dead: Option<String>,
}

/// The cost of a move between two readings, where they can be trusted.
pub open spec fn cost(t0: u64, t1: u64) -> Option<int> {
    if t0 == u64::MAX || t1 == u64::MAX || t1 < t0 {
        None
    } else {
        Some(t1 - t0)
    }
}

/// What a measured answer is worth. `percent` is the text of how far the cost is from the
/// budget, and is used for an overrun alone.
pub open spec fn judged(
    t0: u64,
    t1: u64,
    answer: u16,
    budget: u64,
    percent: Seq<char>,
) -> Answer {
    if t0 == u64::MAX || t1 == u64::MAX {
        Answer::Forfeit("cycle counter unreadable across the move (the PMU was time-shared)"@)
    } else if t1 < t0 {
        Answer::Forfeit(
            "cycle counter went backwards ("@ + decimal(t0 as nat) + " -> "@ + decimal(t1 as nat)
                + ")"@,
        )
    } else if t1 - t0 > budget + GRACE {
        Answer::Forfeit(
            "budget overrun: spent "@ + decimal((t1 - t0) as nat) + " cycles of "@ + decimal(
                budget as nat,
            ) + " ("@ + percent + "%, grace "@ + decimal(GRACE as nat) + ")"@,
        )
    } else if answer == 0 {
        Answer::Forfeit("returned move 0 (no move chosen)"@)
    } else {
        Answer::Move(answer)
    }
}

/// An answer counts as a move exactly when it is one and the readings show that it was made
/// within the budget and the grace; everything else forfeits the game.
pub proof fn law_only_a_move_within_budget_counts(
    t0: u64,
    t1: u64,
    answer: u16,
    budget: u64,
    percent: Seq<char>,
)
    ensures
        match judged(t0, t1, answer, budget, percent) {
            Answer::Move(m) => m == answer && m != 0 && cost(t0, t1) is Some && cost(t0, t1)->0
                <= budget + GRACE,
            Answer::Forfeit(_) => answer == 0 || cost(t0, t1) is None || cost(t0, t1)->0 > budget
                + GRACE,
        },
{
}

pub open spec fn hung_text(name: Seq<char>) -> Seq<char> {
    name + " hung: no reply within "@ + decimal(REPLY_TIMEOUT_MS as nat) + "ms"@
}

pub open spec fn broken_text(name: Seq<char>, status: Option<i32>) -> Seq<char> {
    match status {
        Some(st) => name + " "@ + exit_text(st),
        None => name + " stopped responding"@,
    }
}

/// The view of an optional string.
pub open spec fn opt_text(s: Option<String>) -> Option<Seq<char>> {
    match s {
        Some(x) => Some(x@),
        None => None,
    }
}

/// The name of an engine: the stem of its file without every leading `lib`.
pub open spec fn short_name(stem: Seq<char>) -> Seq<char>
    decreases stem.len(),
{
    if stem.len() >= 3 && stem[0] == 'l' && stem[1] == 'i' && stem[2] == 'b' {
        short_name(stem.skip(3))
    } else {
        stem
    }
}

/// The name of an engine from the stem of its file.
pub fn engine_name(stem: &str) -> (r: String)
    ensures
        r@ == short_name(stem@),
{
    let s = chars(stem);
    let n = s.len();
    let mut i: usize = 0;
    assert(s@.skip(0) =~= s@);
    while i < n && n - i >= 3 && s[i] == 'l' && s[i + 1] == 'i' && s[i + 2] == 'b'
        invariant
            n == s@.len(),
            i <= n,
            short_name(s@.skip(i as int)) == short_name(stem@),
        decreases n - i,
    {
        assert(s@.skip(i as int).skip(3) =~= s@.skip(i + 3));
        i = i + 3;
    }
    let ghost rest = s@.skip(i as int);
    let r = cut(&s, i, n);
    assert(r@ =~= rest);
    string(&r)
}

// --------------------------------------------------------------------------- loading

/// What the arbiter waits for while it loads an engine.
#[derive(Clone, Copy)]
pub enum Phase {
    /// The host is up, before it touches the engine.
    Starting,
    /// The engine has set itself up.
    Initialising,
}

/// What the arbiter does next while it waits.
pub enum LoadStep {
    /// The phase is over.
    Done,
    /// Look again.
    Wait,
    /// The host is gone.
    Gone(String),
    /// The host must be killed.
    Kill(String),
}

/// A step with its text as characters.
pub enum Next {
    Done,
    Wait,
    Gone(Seq<char>),
    Kill(Seq<char>),
}

impl LoadStep {
    pub open spec fn view(&self) -> Next {
        match self {
            LoadStep::Done => Next::Done,
            LoadStep::Wait => Next::Wait,
            LoadStep::Gone(s) => Next::Gone(s@),
            LoadStep::Kill(s) => Next::Kill(s@),
        }
    }
}

/// What is said when a phase never ends.
pub open spec fn late_text(phase: Phase) -> Seq<char> {
    match phase {
        Phase::Starting => ": engine host never started"@,
        Phase::Initialising => ": hfc_init did not finish within 30s"@,
    }
}

/// What a look at a loading host calls for: a phase that is over is over however late it is,
/// and a host that died is not killed.
pub open spec fn next_step(
    path: Seq<char>,
    phase: Phase,
    over: bool,
    exited: Option<i32>,
    late: bool,
) -> Next {
    if over {
        Next::Done
    } else if exited is Some {
        Next::Gone(path + ": engine host "@ + exit_text(exited->Some_0))
    } else if late {
        Next::Kill(path + late_text(phase))
    } else {
        Next::Wait
    }
}

/// Decides what to do about a loading host: whether its phase is over, the wait status if it
/// has ended, and whether its time is up.
pub fn load_step(path: &str, phase: Phase, over: bool, exited: Option<i32>, late: bool) -> (r:
    LoadStep)
    ensures
        r@ == next_step(path@, phase, over, exited, late),
{
    if over {
        return LoadStep::Done;
    }
    match exited {
        Some(status) => {
            let mut why = path.to_owned();
            why.append(": engine host ");
            why.append(describe_exit(status).as_str());
            LoadStep::Gone(why)
        },
        None => {
            if !late {
                return LoadStep::Wait;
            }
            let mut why = path.to_owned();
            match phase {
                Phase::Starting => why.append(": engine host never started"),
                Phase::Initialising => why.append(": hfc_init did not finish within 30s"),
            }
            LoadStep::Kill(why)
        },
    }
}

/// What is said of an engine whose loading took too long.
pub open spec fn slow_init_text(path: Seq<char>, ticks: u64) -> Seq<char> {
    path + ": hfc_init spent "@ + decimal(ticks as nat) + " reference ticks, limit is "@ + decimal(
        INIT_TICKS as nat,
    ) + " ("@ + decimal((ticks / MOVE_CYCLES) as nat)
        + "x a move budget). Setup is for tables and weights, not for precomputing against the book."@
}

/// Checks what loading cost.
pub fn check_init(path: &str, ticks: u64) -> (r: Result<(), String>)
    ensures
        r is Ok <==> ticks <= INIT_TICKS,
        r is Err ==> r->Err_0@ == slow_init_text(path@, ticks),
{
    if ticks > INIT_TICKS {
        let mut e = path.to_owned();
        e.append(": hfc_init spent ");
        push_decimal(&mut e, ticks as u128);
        e.append(" reference ticks, limit is ");
        push_decimal(&mut e, INIT_TICKS as u128);
        e.append(" (");
        push_decimal(&mut e, (ticks / MOVE_CYCLES) as u128);
        e.append(
            "x a move budget). Setup is for tables and weights, not for precomputing against the book.",
        );
        return Err(e);
    }
    Ok(())
}

impl Engine {
    /// An engine that has just been loaded.
    pub fn new(name: String, load_cycles: u64) -> (e: Engine)
        ensures
            e.name == name,
            e.last_cycles == 0,
            !e.pending_new_game,
            e.load_cycles == load_cycles,
            e.dead is None,
    {
        Engine { name, last_cycles: 0, pending_new_game: false, load_cycles, dead: None }
    }

    pub fn is_dead(&self) -> (r: bool)
        ensures
            r == (self.dead is Some),
    {
        self.dead.is_some()
    }

    /// Marks that the next move begins a new game. The flag rides on that move, and what the
    /// engine does about it comes out of that move's budget.
    pub fn begin_game(&mut self)
        ensures
            final(self).pending_new_game,
            final(self).name == old(self).name,
            final(self).last_cycles == old(self).last_cycles,
            final(self).load_cycles == old(self).load_cycles,
            final(self).dead == old(self).dead,
    {
        self.pending_new_game = true;
    }

    /// Starts a request for a move: whether it begins a game, or why the engine cannot be
    /// asked. An attempt that dies before it was measured must not report the cost of the
    /// move before.
    pub fn request(&mut self) -> (r: Result<bool, String>)
        ensures
            final(self).last_cycles == 0,
            !final(self).pending_new_game,
            final(self).name == old(self).name,
            final(self).load_cycles == old(self).load_cycles,
            final(self).dead == old(self).dead,
            match r {
                Ok(new_game) => old(self).dead is None && new_game == old(self).pending_new_game,
                Err(why) => opt_text(old(self).dead) == Some(why@),
            },
    {
        let new_game = self.pending_new_game;
        self.pending_new_game = false;
        self.last_cycles = 0;
        match &self.dead {
            Some(why) => Err(why.clone()),
            None => Ok(new_game),
        }
    }

    /// Settles a request: the cost of the move where it was measured, the death of the
    /// engine where it died, and what the answer is worth.
    pub fn settle(&mut self, reply: Reply, budget: u64, percent: &str) -> (r: MoveOut)
        requires
            old(self).last_cycles == 0,
        ensures
            final(self).name == old(self).name,
            final(self).pending_new_game == old(self).pending_new_game,
            final(self).load_cycles == old(self).load_cycles,
            match reply {
                Reply::Answered(t0, t1, answer) => {
                    &&& final(self).dead == old(self).dead
                    &&& final(self).last_cycles == match cost(t0, t1) {
                        Some(c) => c,
                        None => 0,
                    }
                    &&& r@ == judged(t0, t1, answer, budget, percent@)
                },
                Reply::Hung => {
                    &&& final(self).last_cycles == 0
                    &&& opt_text(final(self).dead) == Some(hung_text(old(self).name@))
                    &&& r@ == Answer::Forfeit(hung_text(old(self).name@))
                },
                Reply::Broken(status) => {
                    &&& final(self).last_cycles == 0
                    &&& opt_text(final(self).dead) == Some(broken_text(old(self).name@, status))
                    &&& r@ == Answer::Forfeit(broken_text(old(self).name@, status))
                },
            },
    {
        match reply {
            Reply::Hung => {
                let mut why = self.name.clone();
                why.append(" hung: no reply within ");
                push_decimal(&mut why, REPLY_TIMEOUT_MS as u128);
                why.append("ms");
                self.dead = Some(why.clone());
                MoveOut::Forfeit(why)
            },
            Reply::Broken(status) => {
                let mut why = self.name.clone();
                match status {
                    Some(st) => {
                        why.append(" ");
                        why.append(describe_exit(st).as_str());
                    },
                    None => {
                        why.append(" stopped responding");
                    },
                }
                self.dead = Some(why.clone());
                MoveOut::Forfeit(why)
            },
            Reply::Answered(t0, t1, answer) => {
                if t0 == u64::MAX || t1 == u64::MAX {
                    return MoveOut::Forfeit(
                        "cycle counter unreadable across the move (the PMU was time-shared)".to_owned(),
                    );
                }
                if t1 < t0 {
                    let mut why = "cycle counter went backwards (".to_owned();
                    push_decimal(&mut why, t0 as u128);
                    why.append(" -> ");
                    push_decimal(&mut why, t1 as u128);
                    why.append(")");
                    return MoveOut::Forfeit(why);
                }
                let used = t1 - t0;
                self.last_cycles = used;
                if used as u128 > budget as u128 + GRACE as u128 {
                    let mut why = "budget overrun: spent ".to_owned();
                    push_decimal(&mut why, used as u128);
                    why.append(" cycles of ");
                    push_decimal(&mut why, budget as u128);
                    why.append(" (");
                    why.append(percent);
                    why.append("%, grace ");
                    push_decimal(&mut why, GRACE as u128);
                    why.append(")");
                    return MoveOut::Forfeit(why);
                }
                if answer == 0 {
                    return MoveOut::Forfeit("returned move 0 (no move chosen)".to_owned());
                }
                MoveOut::Move(answer)
            },
        }
    }
}

// ----------------------------------------------------------------------- the machine

/// A cycle counter on another process.
pub struct RemoteCounter {
    pub fd: i32,
}

impl RemoteCounter {
    /// What a read of `got` bytes is worth: the count, the time it was enabled and the time
    /// it ran. A short read, or a counter that did not run all the time, shows the largest
    /// number.
    pub fn reading(&self, got: isize, buf: &[u64; 3]) -> (r: u64)
        ensures
            r == if got != 24 || buf@[2] < buf@[1] {
                u64::MAX
            } else {
                buf@[0]
            },
    {
        if got != 24 || buf[2] < buf[1] {
            u64::MAX
        } else {
            buf[0]
        }
    }
}

/// The CPUs that share a core, as the kernel lists them.
pub open spec fn siblings(list: Seq<char>) -> Seq<Seq<char>> {
    split(trim(list), either(',', '-'))
}

/// The warning about a CPU that shares its core, if it does.
pub open spec fn sibling_text(cpu: nat, list: Seq<char>) -> Option<Seq<char>> {
    let sibs = siblings(list);
    if sibs.len() > 1 {
        Some(
            "CPU "@ + decimal(cpu) + " shares a physical core with CPU(s) "@ + join(
                sibs.filter(|x: Seq<char>| x != decimal(cpu)),
                ", "@,
            )
                + ". Identical work costs ~52% more cycles when a sibling is busy.\n  fix: echo off | sudo tee /sys/devices/system/cpu/smt/control"@,
        )
    } else {
        None
    }
}

/// Warns when a CPU shares its core with others, by the kernel's list of them: a busy
/// sibling makes identical work cost more.
pub fn smt_sibling_warning(cpu: usize, list: &str) -> (r: Option<String>)
    ensures
        opt_text(r) == sibling_text(cpu as nat, list@),
{
    let sibs = split_either(&trimmed(&chars(list)), ',', '-');
    if sibs.len() <= 1 {
        return None;
    }
    let mut own = String::new();
    push_decimal(&mut own, cpu as u128);
    assert(own@ =~= decimal(cpu as nat));
    let me = chars(own.as_str());
    let ghost keep = |x: Seq<char>| x != decimal(cpu as nat);
    let ghost all = texts(sibs@);
    let mut w = "CPU ".to_owned();
    push_decimal(&mut w, cpu as u128);
    w.append(" shares a physical core with CPU(s) ");
    let ghost head = w@;
    let mut any: bool = false;
    let mut i: usize = 0;
    assert(all.take(0).filter(keep) =~= Seq::<Seq<char>>::empty()) by {
        reveal(Seq::filter);
    }
    assert(w@ =~= head + join(all.take(0).filter(keep), ", "@));
    while i < sibs.len()
        invariant
            i <= sibs@.len(),
            all == texts(sibs@),
            me@ == decimal(cpu as nat),
            keep == (|x: Seq<char>| x != decimal(cpu as nat)),
            any == (all.take(i as int).filter(keep).len() > 0),
            w@ == head + join(all.take(i as int).filter(keep), ", "@),
        decreases sibs@.len() - i,
    {
        proof {
            crate::legality::lemma_filter_step(all, keep, i as int);
            assert(all[i as int] == sibs@[i as int]@);
        }
        let ghost done = all.take(i as int).filter(keep);
        if !same(&sibs[i], &me) {
            let ghost more = done.push(all[i as int]);
            if any {
                w.append(", ");
            }
            push_all(&mut w, &sibs[i]);
            assert(more.drop_last() =~= done);
            assert(w@ =~= head + join(more, ", "@));
            any = true;
        }
        i = i + 1;
    }
    assert(all.take(i as int) =~= all);
    w.append(
        ". Identical work costs ~52% more cycles when a sibling is busy.\n  fix: echo off | sudo tee /sys/devices/system/cpu/smt/control",
    );
    Some(w)
}

// ------------------------------------------------------------------------------ laws

proof fn lemma_found(a: Seq<char>, pat: Seq<char>, b: Seq<char>)
    ensures
        contains(a + pat + b, pat),
{
    let s = a + pat + b;
    assert(s.subrange(a.len() as int, a.len() as int + pat.len()) =~= pat);
    assert(occurs_at(s, pat, a.len() as int));
}

/// A crash is sorted as one by the words that describe it, whatever the engine is called and
/// whatever status its process left.
pub proof fn law_crash_notes_are_sorted_as_crashes(prefix: Seq<char>, name: Seq<char>, status: i32)
    ensures
        bucket(prefix + broken_text(name, Some(status))) == 0,
{
    let note = prefix + broken_text(name, Some(status));
    let s = status & 0x7f;
    reveal_strlit("crashed with signal ");
    reveal_strlit("crashed with signal");
    reveal_strlit("exited with status ");
    reveal_strlit("exited with status");
    reveal_strlit(" ");
    if 1 <= s <= 126 {
        let rest = decimal(s as nat) + " ("@ + signal_text(s as int) + ")"@;
        lemma_found(prefix + name + " "@, "crashed with signal"@, " "@ + rest);
        assert("crashed with signal "@ =~= "crashed with signal"@ + " "@);
        assert(note =~= prefix + name + " "@ + "crashed with signal"@ + (" "@ + rest));
    } else {
        let rest = decimal(((status >> 8) & 0xff) as nat);
        lemma_found(prefix + name + " "@, "exited with status"@, " "@ + rest);
        assert("exited with status "@ =~= "exited with status"@ + " "@);
        assert(note =~= prefix + name + " "@ + "exited with status"@ + (" "@ + rest));
    }
}

} // verus!
