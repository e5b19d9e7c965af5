//! Command-line flags of the headless companion tool: `--name value` pairs, later ones winning.

use crate::assoc::{keys_sorted, lemma_table_get_put, table_find, table_get, table_insert};
use crate::chains::starts_with;
use crate::text::{chars_of, string_of_chars};
use vstd::prelude::*;

verus! {

/// The flags of `args` from position `i` on, added to `m`: an argument `--name` takes the
/// argument after it as its value (a later flag of the same name wins); a `--name` with nothing
/// after it, and any argument that is not a flag, are skipped.
pub open spec fn flags_from(args: Seq<String>, i: int, m: Map<Seq<char>, Seq<char>>) -> Map<Seq<char>, Seq<char>>
    decreases args.len() - i,
{
    if i < 0 || i >= args.len() {
        m
    } else if starts_with(args[i]@, "--"@) {
        if i + 1 < args.len() {
            flags_from(args, i + 2, m.insert(args[i]@.skip(2), args[i + 1]@))
        } else {
            m
        }
    } else {
        flags_from(args, i + 1, m)
    }
}

/// The flags of `args` as an ordered name-to-value table.
pub fn parse_flags(args: &Vec<String>) -> (flags: Vec<(String, String)>)
    ensures
        keys_sorted(flags@),
        forall|k: Seq<char>|
            match #[trigger] table_get(flags@, k) {
                Some(v) => flags_from(args@, 0, Map::empty()).contains_key(k) && v@ == flags_from(args@, 0, Map::empty())[k],
                None => !flags_from(args@, 0, Map::empty()).contains_key(k),
            },
{
    proof {
        reveal_strlit("--");
    }
    let dash = chars_of("--");
    let mut flags: Vec<(String, String)> = Vec::new();
    let ghost mut m: Map<Seq<char>, Seq<char>> = Map::empty();
    let mut i: usize = 0;
    while i < args.len()
        invariant
            dash@ == "--"@,
            "--"@ == seq!['-', '-'],
            i <= args.len() + 1,
            keys_sorted(flags@),
            flags_from(args@, i as int, m) == flags_from(args@, 0, Map::empty()),
            forall|k: Seq<char>|
                match #[trigger] table_get(flags@, k) {
                    Some(v) => m.contains_key(k) && v@ == m[k],
                    None => !m.contains_key(k),
                },
        decreases args.len() + 1 - i,
    {
        let a = chars_of(args[i].as_str());
        if a.len() >= 2 && a[0] == '-' && a[1] == '-' {
            proof {
                assert(a@.take(2) =~= "--"@);
            }
            if i + 1 < args.len() {
                let mut name: Vec<char> = Vec::new();
                let mut j: usize = 2;
                while j < a.len()
                    invariant
                        2 <= j <= a.len(),
                        name@ == a@.subrange(2, j as int),
                    decreases a.len() - j,
                {
                    name.push(a[j]);
                    j += 1;
                    proof {
                        assert(name@ =~= a@.subrange(2, j as int));
                    }
                }
                let key = string_of_chars(name.as_slice());
                let value = args[i + 1].clone();
                let ghost kv = key;
                let ghost vv = value;
                proof {
                    assert(key@ =~= args@[i as int]@.skip(2));
                }
                let ghost old_flags = flags@;
                table_insert(&mut flags, key, value);
                proof {
                    let m2 = m.insert(kv@, vv@);
                    assert forall|k: Seq<char>|
                        match #[trigger] table_get(flags@, k) {
                            Some(v) => m2.contains_key(k) && v@ == m2[k],
                            None => !m2.contains_key(k),
                        } by {
                        lemma_table_get_put(old_flags, kv, vv, k);
                    }
                    m = m2;
                }
                i += 2;
            } else {
                i += 1;
                proof {
                    assert(flags_from(args@, (i - 1) as int, m) == m);
                    assert(flags_from(args@, i as int, m) == m);
                }
            }
        } else {
            proof {
                assert(!starts_with(a@, "--"@)) by {
                    if a@.len() >= 2 {
                        assert(a@.take(2)[0] == a@[0]);
                        assert(a@.take(2)[1] == a@[1]);
                    }
                }
            }
            i += 1;
        }
    }
    flags
}

/// The value of required flag `name`, or the message naming what is missing.
pub fn require(flags: &Vec<(String, String)>, name: &str) -> (r: Result<String, String>)
    requires
        keys_sorted(flags@),
    ensures
        match table_get(flags@, name@) {
            Some(v) => r == Ok::<String, String>(v),
            None => r matches Err(m) && m@ == "missing required --"@ + name@,
        },
{
    match table_find(flags, name) {
        Some(i) => Ok(flags[i].1.clone()),
        None => {
            let mut m = String::from_str("missing required --");
            m.append(name);
            Err(m)
        },
    }
}

} // verus!
