//! Parsing of the query parameters that requests carry.
use vstd::prelude::*;
use crate::assoc::lemma_push_fresh;
use crate::error::Error;
use crate::store::strs;

verus! {

/// The pieces of `s` between commas, in order; `s` without a comma is one piece.
pub open spec fn split_commas(s: Seq<char>) -> Seq<Seq<char>>
    decreases s.len(),
{
    if s.len() == 0 {
        seq![Seq::empty()]
    } else {
        let p = split_commas(s.drop_last());
        if s.last() == ',' {
            p.push(Seq::empty())
        } else {
            p.update(p.len() - 1, p.last().push(s.last()))
        }
    }
}

/// Splitting always yields at least one piece.
pub proof fn lemma_split_nonempty(s: Seq<char>)
    ensures
        split_commas(s).len() >= 1,
    decreases s.len(),
{
    if s.len() > 0 {
        lemma_split_nonempty(s.drop_last());
    }
}

/// The transaction a request names, `default` where it names none.
pub open spec fn tx_name_of(tx: Option<Seq<char>>) -> Seq<char> {
    match tx {
        Some(t) => t,
        None => seq!['d', 'e', 'f', 'a', 'u', 'l', 't'],
    }
}

/// Splits a comma-separated parameter into its distinct pieces; an empty
/// parameter is refused with `EmptyInput` naming `key_name`.
pub fn comma_separated(key_name: &str, input: &str) -> (r: Result<Vec<String>, Error>)
    ensures
        r is Err <==> input@.len() == 0,
        r matches Err(e) ==> e matches Error::EmptyInput { input: name } && name@ == key_name@,
        r matches Ok(v) ==> strs(v@).no_duplicates() && strs(v@).to_set() == split_commas(
            input@,
        ).to_set(),
{
    let n = input.unicode_len();
    if n == 0 {
        return Err(Error::EmptyInput { input: key_name.to_owned() });
    }
    let mut out: Vec<String> = Vec::new();
    let ghost mut done: Seq<Seq<char>> = Seq::empty();
    let mut start: usize = 0;
    let mut i: usize = 0;
    proof {
        assert(input@.take(0) =~= Seq::<char>::empty());
        assert(done.push(input@.subrange(0, 0)) =~= split_commas(input@.take(0)));
        assert(strs(out@).to_set() =~= done.to_set());
    }
    while i < n
        invariant
            n == input@.len(),
            start <= i <= n,
            done.push(input@.subrange(start as int, i as int)) == split_commas(input@.take(i as int)),
            strs(out@).no_duplicates(),
            strs(out@).to_set() == done.to_set(),
        decreases n - i,
    {
        let c = input.get_char(i);
        proof {
            assert(input@.take(i as int + 1).drop_last() =~= input@.take(i as int));
            assert(input@.take(i as int + 1).last() == c);
            lemma_split_nonempty(input@.take(i as int));
        }
        if c == ',' {
            let piece = input.substring_char(start, i).to_owned();
            let ghost before = strs(out@);
            if !crate::store::contains_str(&out, &piece) {
                out.push(piece);
                proof {
                    assert(strs(out@) =~= before.push(piece@));
                    lemma_push_fresh(before, piece@);
                }
            }
            proof {
                let d2 = done.push(input@.subrange(start as int, i as int));
                done.lemma_push_to_set_commute(input@.subrange(start as int, i as int));
                assert(strs(out@).to_set() =~= d2.to_set()) by {
                    if before.contains(piece@) {
                        assert(before.to_set().contains(piece@));
                    }
                }
                assert(split_commas(input@.take(i as int + 1)) == split_commas(
                    input@.take(i as int),
                ).push(Seq::empty()));
                assert(input@.subrange(i as int + 1, i as int + 1) =~= Seq::<char>::empty());
                assert(d2.push(input@.subrange(i as int + 1, i as int + 1)) =~= split_commas(
                    input@.take(i as int + 1),
                ));
                done = d2;
            }
            start = i + 1;
        } else {
            proof {
                let p = split_commas(input@.take(i as int));
                assert(split_commas(input@.take(i as int + 1)) == p.update(
                    p.len() - 1,
                    p.last().push(c),
                ));
                assert(p.last() == input@.subrange(start as int, i as int));
                assert(input@.subrange(start as int, i as int).push(c) =~= input@.subrange(
                    start as int,
                    i as int + 1,
                ));
                assert(done.push(input@.subrange(start as int, i as int + 1)) =~= split_commas(
                    input@.take(i as int + 1),
                ));
            }
        }
        i = i + 1;
    }
    let piece = input.substring_char(start, n).to_owned();
    let ghost before = strs(out@);
    if !crate::store::contains_str(&out, &piece) {
        out.push(piece);
        proof {
            assert(strs(out@) =~= before.push(piece@));
            lemma_push_fresh(before, piece@);
        }
    }
    proof {
        assert(input@.take(n as int) =~= input@);
        let d2 = done.push(input@.subrange(start as int, n as int));
        done.lemma_push_to_set_commute(input@.subrange(start as int, n as int));
        assert(strs(out@).to_set() =~= d2.to_set()) by {
            if before.contains(piece@) {
                assert(before.to_set().contains(piece@));
            }
        }
    }
    Ok(out)
}

/// The transaction a request names, `default` where it names none.
pub fn transaction_name(tx: Option<&str>) -> (r: &str)
    ensures
        r@ == tx_name_of(
            match tx {
                Some(t) => Some(t@),
                None => None,
            },
        ),
{
    match tx {
        Some(t) => t,
        None => {
            let d = "default";
            proof {
                reveal_strlit("default");
            }
            d
        },
    }
}

} // verus!
