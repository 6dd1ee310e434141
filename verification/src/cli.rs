//! Flags and files on the command line.
use vstd::prelude::*;

use crate::text::{bounded_number, chars, has_prefix, read_number, starts_with};

verus! {

pub const MAX_PLIES: usize = 400;

pub const DEFAULT_CPU: usize = 2;

/// Where a flag stands first.
pub open spec fn flag_at(args: Seq<String>, flag: Seq<char>, i: int) -> Option<int>
    decreases args.len() - i,
{
    if i < 0 || i >= args.len() {
        None
    } else if args[i]@ == flag {
        Some(i)
    } else {
        flag_at(args, flag, i + 1)
    }
}

/// The value of a flag: the argument behind its first occurrence.
pub open spec fn flag_value(args: Seq<String>, flag: Seq<char>) -> Option<Seq<char>> {
    match flag_at(args, flag, 0) {
        Some(i) => if i + 1 < args.len() {
            Some(args[i + 1]@)
        } else {
            None
        },
        None => None,
    }
}

/// The value of a flag.
pub fn arg(args: &[String], flag: &str) -> (r: Option<String>)
    ensures
        match r {
            Some(s) => flag_value(args@, flag@) == Some(s@),
            None => flag_value(args@, flag@) is None,
        },
{
    let f = flag.to_owned();
    let n = args.len();
    let mut i: usize = 0;
    while i < n
        invariant
            n == args@.len(),
            f@ == flag@,
            i <= n,
            flag_at(args@, flag@, 0) == flag_at(args@, flag@, i as int),
        decreases n - i,
    {
        if args[i] == f {
            if n - i > 1 {
                return Some(args[i + 1].clone());
            }
            return None;
        }
        i = i + 1;
    }
    None
}

/// Whether a flag is given at all.
pub fn given(args: &[String], flag: &str) -> (r: bool)
    ensures
        r == (flag_at(args@, flag@, 0) is Some),
{
    let f = flag.to_owned();
    let n = args.len();
    let mut i: usize = 0;
    while i < n
        invariant
            n == args@.len(),
            f@ == flag@,
            i <= n,
            flag_at(args@, flag@, 0) == flag_at(args@, flag@, i as int),
        decreases n - i,
    {
        if args[i] == f {
            return true;
        }
        i = i + 1;
    }
    false
}

/// A number that a flag can hold.
pub trait Number: Sized {
    /// The largest.
    spec fn most() -> nat;

    spec fn value(self) -> nat;

    fn read(s: &str) -> (r: Option<Self>)
        ensures
            match r {
                Some(n) => bounded_number(s@, 10, Self::most()) == Some(n.value()),
                None => bounded_number(s@, 10, Self::most()) is None,
            },
    ;
}

impl Number for u64 {
    open spec fn most() -> nat {
        u64::MAX as nat
    }

    open spec fn value(self) -> nat {
        self as nat
    }

    fn read(s: &str) -> (r: Option<u64>) {
        read_number(&chars(s), 10, u64::MAX)
    }
}

impl Number for usize {
    open spec fn most() -> nat {
        usize::MAX as nat
    }

    open spec fn value(self) -> nat {
        self as nat
    }

    fn read(s: &str) -> (r: Option<usize>) {
        match read_number(&chars(s), 10, usize::MAX as u64) {
            Some(n) => Some(n as usize),
            None => None,
        }
    }
}

/// The number that a flag holds, or `d` where the flag is missing or its value is none.
pub fn num<T: Number>(args: &[String], flag: &str, d: T) -> (r: T)
    ensures
        match flag_value(args@, flag@) {
            Some(s) => match bounded_number(s, 10, T::most()) {
                Some(n) => r.value() == n,
                None => r == d,
            },
            None => r == d,
        },
{
    match arg(args, flag) {
        None => d,
        Some(s) => match T::read(s.as_str()) {
            Some(n) => n,
            None => d,
        },
    }
}

/// The arguments that name files, up to the first `n`, and whether the last of these was a
/// flag that takes the next argument: a flag and the argument behind it name none.
pub open spec fn named_files(args: Seq<String>, n: int) -> (Seq<Seq<char>>, bool)
    decreases n,
{
    if n <= 0 {
        (Seq::<Seq<char>>::empty(), false)
    } else {
        let (files, skip) = named_files(args, n - 1);
        if skip {
            (files, false)
        } else if starts_with(args[n - 1]@, "--"@) {
            (files, true)
        } else {
            (files.push(args[n - 1]@), false)
        }
    }
}

/// The files that arguments name.
pub fn input_files(args: &[String]) -> (r: Vec<String>)
    ensures
        r@.map_values(|s: String| s@) == named_files(args@, args@.len() as int).0,
{
    let mut r: Vec<String> = Vec::new();
    let mut skip: bool = false;
    let mut i: usize = 0;
    assert(r@.map_values(|s: String| s@) =~= Seq::<Seq<char>>::empty());
    while i < args.len()
        invariant
            i <= args@.len(),
            named_files(args@, i as int) == (r@.map_values(|s: String| s@), skip),
        decreases args@.len() - i,
    {
        if skip {
            skip = false;
        } else if has_prefix(&chars(args[i].as_str()), "--") {
            skip = true;
        } else {
            let ghost was = r@;
            let s = args[i].clone();
            let ghost text = s@;
            r.push(s);
            assert(r@.map_values(|s: String| s@) =~= was.map_values(|s: String| s@).push(text));
        }
        i = i + 1;
    }
    r
}

} // verus!
