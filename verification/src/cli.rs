//! Reading options from a command line.
use vstd::prelude::*;
use crate::tags::{parse_unsigned, parse_number};

verus! {

pub open spec fn arg_views(args: Seq<String>) -> Seq<Seq<char>> {
    args.map_values(|a: String| a@)
}

/// The argument after the first occurrence of `flag` that is followed by
/// one, searching from position `i`.
pub open spec fn flag_value(args: Seq<Seq<char>>, flag: Seq<char>, i: nat) -> Option<Seq<char>>
    decreases args.len() - i,
{
    if i >= args.len() {
        None
    } else if args[i as int] == flag && i + 1 < args.len() {
        Some(args[i as int + 1])
    } else {
        flag_value(args, flag, i + 1)
    }
}

/// The number after the first occurrence of `flag` whose next argument
/// parses as a number up to `max`, searching from position `i`.
pub open spec fn flag_number(args: Seq<Seq<char>>, flag: Seq<char>, max: nat, i: nat) -> Option<nat>
    decreases args.len() - i,
{
    if i >= args.len() {
        None
    } else if args[i as int] == flag && i + 1 < args.len() && parse_unsigned(args[i as int + 1], max) is Some {
        parse_unsigned(args[i as int + 1], max)
    } else {
        flag_number(args, flag, max, i + 1)
    }
}

fn find_flag(args: &[String], flag: &str) -> (r: Option<usize>)
    ensures
        match flag_value(arg_views(args@), flag@, 0) {
            Some(v) => r matches Some(k) && k + 1 < args@.len() && args@[k + 1]@ == v,
            None => r is None,
        },
        match r {
            Some(k) => k + 1 < args@.len(),
            None => true,
        },
{
    let f = String::from_str(flag);
    let mut i: usize = 0;
    assert(flag_value(arg_views(args@), flag@, 0) == flag_value(arg_views(args@), flag@, i as nat));
    while i < args.len()
        invariant
            i <= args@.len(),
            f@ == flag@,
            flag_value(arg_views(args@), flag@, 0) == flag_value(arg_views(args@), flag@, i as nat),
        decreases args@.len() - i,
    {
        assert(arg_views(args@)[i as int] == args@[i as int]@);
        if args[i] == f && i + 1 < args.len() {
            assert(arg_views(args@)[i + 1] == args@[i + 1]@);
            return Some(i);
        }
        i = i + 1;
    }
    None
}

fn find_number(args: &[String], flag: &str, max: u64) -> (r: Option<u64>)
    ensures
        match flag_number(arg_views(args@), flag@, max as nat, 0) {
            Some(v) => r == Some(v as u64) && v <= max,
            None => r is None,
        },
{
    proof {
        lemma_flag_number_bound(arg_views(args@), flag@, max as nat, 0);
    }
    let f = String::from_str(flag);
    let mut i: usize = 0;
    assert(flag_number(arg_views(args@), flag@, max as nat, 0) == flag_number(arg_views(args@), flag@, max as nat, i as nat));
    while i < args.len()
        invariant
            i <= args@.len(),
            f@ == flag@,
            flag_number(arg_views(args@), flag@, max as nat, 0) == flag_number(arg_views(args@), flag@, max as nat, i as nat),
        decreases args@.len() - i,
    {
        assert(arg_views(args@)[i as int] == args@[i as int]@);
        if args[i] == f && i + 1 < args.len() {
            assert(arg_views(args@)[i + 1] == args@[i + 1]@);
            let v = parse_number(args[i + 1].as_str(), max);
            if v.is_some() {
                return v;
            }
        }
        i = i + 1;
    }
    None
}

proof fn lemma_flag_number_bound(args: Seq<Seq<char>>, flag: Seq<char>, max: nat, i: nat)
    ensures
        match flag_number(args, flag, max, i) {
            Some(v) => v <= max,
            None => true,
        },
    decreases args.len() - i,
{
    if i < args.len() {
        lemma_flag_number_bound(args, flag, max, i + 1);
    }
}

/// The listening address: the argument after `--addr`, else
/// `0.0.0.0:8080`.
pub fn get_addr(args: &[String]) -> (r: String)
    ensures
        r@ == match flag_value(arg_views(args@), "--addr"@, 0) {
            Some(v) => v,
            None => "0.0.0.0:8080"@,
        },
{
    match find_flag(args, "--addr") {
        Some(k) => {
            let n = args.len();
            assert(k + 1 < n);
            args[k + 1].clone()
        },
        None => String::from_str("0.0.0.0:8080"),
    }
}

/// The data directory: the argument after `--data-dir`, else
/// `./holographic_data`.
pub fn get_data_dir(args: &[String]) -> (r: String)
    ensures
        r@ == match flag_value(arg_views(args@), "--data-dir"@, 0) {
            Some(v) => v,
            None => "./holographic_data"@,
        },
{
    match find_flag(args, "--data-dir") {
        Some(k) => {
            let n = args.len();
            assert(k + 1 < n);
            args[k + 1].clone()
        },
        None => String::from_str("./holographic_data"),
    }
}

/// The window size: the first number after a `--window`, else 1024.
pub fn get_window_size(args: &[String]) -> (r: usize)
    ensures
        r == match flag_number(arg_views(args@), "--window"@, usize::MAX as nat, 0) {
            Some(v) => v as usize,
            None => 1024,
        },
{
    match find_number(args, "--window", usize::MAX as u64) {
        Some(v) => v as usize,
        None => 1024,
    }
}

/// The redundancy level: the first number up to 255 after a
/// `--redundancy`, else 3.
pub fn get_redundancy(args: &[String]) -> (r: u8)
    ensures
        r == match flag_number(arg_views(args@), "--redundancy"@, 255, 0) {
            Some(v) => v as u8,
            None => 3,
        },
{
    match find_number(args, "--redundancy", 255) {
        Some(v) => v as u8,
        None => 3,
    }
}

} // verus!
