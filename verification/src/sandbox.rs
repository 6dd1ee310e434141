//! The system call filter that an engine runs under.
use vstd::prelude::*;

verus! {

/// One instruction of a classic packet filter program.
#[derive(Clone, Copy)]
pub struct SockFilter {
    pub code: u16,
    pub jt: u8,
    pub jf: u8,
    pub k: u32,
}

/// Loads a word at an absolute offset.
pub const LD_W_ABS: u16 = 0x20;

/// Jumps on equality with a constant.
pub const JMP_JEQ_K: u16 = 0x15;

/// Returns a constant.
pub const RET_K: u16 = 0x06;

/// Where a system call's number stands in what the filter is shown.
pub const NR_OFFSET: u32 = 0;

pub const KILL: u32 = 0x0000_0000;

pub const ALLOW: u32 = 0x7fff_0000;

/// A newer way to open files.
pub const SYS_OPENAT2: u32 = 437;

/// The verdict of a program about the system call `nr`, from instruction `pc` with `acc`
/// loaded; none when the program runs off its end or holds an instruction not listed here.
pub open spec fn verdict_from(prog: Seq<SockFilter>, nr: u32, pc: int, acc: u32) -> Option<u32>
    decreases
            if pc < prog.len() {
                prog.len() - pc
            } else {
                0
            },
{
    if pc < 0 || pc >= prog.len() {
        None
    } else {
        let i = prog[pc];
        if i.code == LD_W_ABS && i.k == NR_OFFSET {
            verdict_from(prog, nr, pc + 1, nr)
        } else if i.code == JMP_JEQ_K {
            verdict_from(
                prog,
                nr,
                pc + 1 + if acc == i.k {
                    i.jt as int
                } else {
                    i.jf as int
                },
                acc,
            )
        } else if i.code == RET_K {
            Some(i.k)
        } else {
            None
        }
    }
}

/// The verdict of a program about the system call `nr`.
pub open spec fn filter_verdict(prog: Seq<SockFilter>, nr: u32) -> Option<u32> {
    verdict_from(prog, nr, 0, 0)
}

/// The program that kills on the calls of `blocked`: it loads the number, jumps to the end
/// on each match, and allows what is left.
pub open spec fn filter_program(blocked: Seq<u32>) -> Seq<SockFilter> {
    seq![SockFilter { code: LD_W_ABS, jt: 0, jf: 0, k: NR_OFFSET }] + Seq::new(
        blocked.len(),
        |i: int|
            SockFilter { code: JMP_JEQ_K, jt: (blocked.len() - i) as u8, jf: 0, k: blocked[i] },
    ) + seq![
        SockFilter { code: RET_K, jt: 0, jf: 0, k: ALLOW },
        SockFilter { code: RET_K, jt: 0, jf: 0, k: KILL },
    ]
}

/// Builds the program.
pub fn process_filter(blocked: &Vec<u32>) -> (prog: Vec<SockFilter>)
    requires
        blocked@.len() <= 255,
    ensures
        prog@ == filter_program(blocked@),
{
    let mut prog: Vec<SockFilter> = Vec::new();
    prog.push(SockFilter { code: LD_W_ABS, jt: 0, jf: 0, k: NR_OFFSET });
    let ghost jumps = Seq::new(
        blocked@.len(),
        |i: int|
            SockFilter { code: JMP_JEQ_K, jt: (blocked@.len() - i) as u8, jf: 0, k: blocked@[i] },
    );
    let ghost head = prog@;
    let mut i: usize = 0;
    while i < blocked.len()
        invariant
            blocked@.len() <= 255,
            i <= blocked@.len(),
            jumps == Seq::new(
                blocked@.len(),
                |i: int|
                    SockFilter {
                        code: JMP_JEQ_K,
                        jt: (blocked@.len() - i) as u8,
                        jf: 0,
                        k: blocked@[i],
                    },
            ),
            prog@ == head + jumps.take(i as int),
        decreases blocked@.len() - i,
    {
        let to_kill = (blocked.len() - i) as u8;
        prog.push(SockFilter { code: JMP_JEQ_K, jt: to_kill, jf: 0, k: blocked[i] });
        assert(jumps.take(i + 1) =~= jumps.take(i as int).push(jumps[i as int]));
        assert(prog@ =~= head + jumps.take(i + 1));
        i = i + 1;
    }
    prog.push(SockFilter { code: RET_K, jt: 0, jf: 0, k: ALLOW });
    prog.push(SockFilter { code: RET_K, jt: 0, jf: 0, k: KILL });
    assert(prog@ =~= filter_program(blocked@));
    prog
}

proof fn lemma_jumps(blocked: Seq<u32>, nr: u32, i: int)
    requires
        blocked.len() <= 255,
        0 <= i <= blocked.len(),
    ensures
        verdict_from(filter_program(blocked), nr, i + 1, nr) == Some(
            if exists|j: int| i <= j < blocked.len() && blocked[j] == nr {
                KILL
            } else {
                ALLOW
            },
        ),
    decreases blocked.len() - i,
{
    let prog = filter_program(blocked);
    let n = blocked.len() as int;
    assert(prog.len() == n + 3);
    assert(prog[n + 1] == (SockFilter { code: RET_K, jt: 0, jf: 0, k: ALLOW }));
    assert(prog[n + 2] == (SockFilter { code: RET_K, jt: 0, jf: 0, k: KILL }));
    if i < n {
        lemma_jumps(blocked, nr, i + 1);
        let here = SockFilter { code: JMP_JEQ_K, jt: (n - i) as u8, jf: 0, k: blocked[i] };
        assert(prog[i + 1] == here);
        if blocked[i] == nr {
            assert(verdict_from(prog, nr, n + 2, nr) == Some(KILL));
            assert(i + 1 + 1 + (n - i) == n + 2);
        }
    }
}

/// The filter kills exactly on the calls that are blocked and allows every other.
pub proof fn law_filter_kills_blocked_calls(blocked: Seq<u32>, nr: u32)
    requires
        blocked.len() <= 255,
    ensures
        blocked.contains(nr) ==> filter_verdict(filter_program(blocked), nr) == Some(KILL),
        !blocked.contains(nr) ==> filter_verdict(filter_program(blocked), nr) == Some(ALLOW),
{
    let prog = filter_program(blocked);
    assert(prog[0] == (SockFilter { code: LD_W_ABS, jt: 0, jf: 0, k: NR_OFFSET }));
    lemma_jumps(blocked, nr, 0);
    assert(filter_verdict(prog, nr) == verdict_from(prog, nr, 1, nr));
    if blocked.contains(nr) {
        let j = choose|j: int| 0 <= j < blocked.len() && blocked[j] == nr;
        assert(blocked[j] == nr);
    }
}

/// The numbers that the `libc` crate gives, for x86-64 Linux, to the system calls that make
/// processes or threads, trace them, open files, or reach the network: `clone`, `clone3`,
/// `fork`, `vfork`, `execve`, `ptrace`, `open`, `openat`, `socket`, `connect`.
#[verifier::external_body]
fn call_numbers() -> (r: [u32; 10])
    ensures
        r@ == seq![56u32, 435, 57, 58, 59, 101, 2, 257, 41, 42],
{
    [
        libc::SYS_clone as u32,
        libc::SYS_clone3 as u32,
        libc::SYS_fork as u32,
        libc::SYS_vfork as u32,
        libc::SYS_execve as u32,
        libc::SYS_ptrace as u32,
        libc::SYS_open as u32,
        libc::SYS_openat as u32,
        libc::SYS_socket as u32,
        libc::SYS_connect as u32,
    ]
}

/// The calls that an engine may not make: no processes or threads, which could work between
/// moves, no files, and nothing off the machine.
pub open spec fn forbidden_calls() -> Seq<u32> {
    seq![56u32, 435, 57, 58, 59, 101, 2, 257, SYS_OPENAT2, 41, 42]
}

/// The filter that an engine runs under.
pub fn forbid_process_creation() -> (prog: Vec<SockFilter>)
    ensures
        prog@ == filter_program(forbidden_calls()),
{
    let n = call_numbers();
    let mut blocked: Vec<u32> = Vec::new();
    let mut i: usize = 0;
    while i < 8
        invariant
            i <= 8,
            n@ == seq![56u32, 435, 57, 58, 59, 101, 2, 257, 41, 42],
            blocked@ == n@.take(i as int),
        decreases 8 - i,
    {
        blocked.push(n[i]);
        i = i + 1;
        assert(blocked@ =~= n@.take(i as int));
    }
    blocked.push(SYS_OPENAT2);
    blocked.push(n[8]);
    blocked.push(n[9]);
    assert(blocked@ =~= forbidden_calls());
    process_filter(&blocked)
}

} // verus!
