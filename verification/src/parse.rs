//! The snippet line format: a tag line split on semicolons, and body lines
//! joined back together with newlines.

use vstd::prelude::*;
use vstd::string::StrSliceExecFns;
use vstd::string::StringExecFns;

verus! {

/// The fragments of `s` between semicolons, in order, empty fragments
/// included. A sequence without semicolons is one fragment; every
/// semicolon ends one fragment and starts the next.
pub open spec fn split_semi(s: Seq<char>) -> Seq<Seq<char>>
    decreases s.len(),
{
    if s.len() == 0 {
        seq![Seq::empty()]
    } else if s[0] == ';' {
        seq![Seq::empty()] + split_semi(s.drop_first())
    } else {
        let rest = split_semi(s.drop_first());
        seq![seq![s[0]] + rest[0]] + rest.drop_first()
    }
}

/// `fragments` with the empty ones removed.
pub open spec fn drop_empty(fragments: Seq<Seq<char>>) -> Seq<Seq<char>>
    decreases fragments.len(),
{
    if fragments.len() == 0 {
        Seq::empty()
    } else if fragments[0].len() > 0 {
        seq![fragments[0]] + drop_empty(fragments.drop_first())
    } else {
        drop_empty(fragments.drop_first())
    }
}

/// The tags carried by a tag line: its semicolon-separated fragments,
/// empty fragments discarded.
pub open spec fn tags_of(line: Seq<char>) -> Seq<Seq<char>> {
    drop_empty(split_semi(line))
}

/// `lines` joined into one sequence with a newline between each pair of
/// neighbours, and none at the end.
pub open spec fn join_nl(lines: Seq<Seq<char>>) -> Seq<char>
    decreases lines.len(),
{
    if lines.len() == 0 {
        Seq::empty()
    } else if lines.len() == 1 {
        lines[0]
    } else {
        lines[0] + seq!['\n'] + join_nl(lines.drop_first())
    }
}

/// Splitting when no semicolon stands before position `i`: if `i` is the
/// end, the whole of `s` is the single fragment; if a semicolon stands at
/// `i`, the first fragment ends there and the rest is split on its own.
proof fn lemma_split_semi_at(s: Seq<char>, i: int)
    requires
        0 <= i <= s.len(),
        forall|k: int| 0 <= k < i ==> s[k] != ';',
    ensures
        i == s.len() ==> split_semi(s) == seq![s],
        i < s.len() && s[i] == ';' ==> split_semi(s) == seq![s.subrange(0, i)] + split_semi(
            s.subrange(i + 1, s.len() as int),
        ),
    decreases s.len(),
{
    if i == 0 {
        if 0 < s.len() && s[0] == ';' {
            assert(s.subrange(0, 0) =~= Seq::<char>::empty());
            assert(s.subrange(1, s.len() as int) =~= s.drop_first());
        } else if s.len() == 0 {
            assert(split_semi(s) =~~= seq![s]);
        }
    } else {
        let sd = s.drop_first();
        lemma_split_semi_at(sd, i - 1);
        let rest = split_semi(sd);
        if i == s.len() {
            assert(rest == seq![sd]);
            assert(seq![seq![s[0]] + rest[0]] + rest.drop_first() =~= seq![seq![s[0]] + sd]);
            assert(seq![s[0]] + sd =~= s);
        } else if s[i] == ';' {
            assert(sd[i - 1] == ';');
            assert(rest == seq![sd.subrange(0, i - 1)] + split_semi(
                sd.subrange(i, sd.len() as int),
            ));
            assert(seq![s[0]] + rest[0] =~= s.subrange(0, i));
            assert(sd.subrange(i, sd.len() as int) =~= s.subrange(i + 1, s.len() as int));
            assert(rest.drop_first() =~= split_semi(s.subrange(i + 1, s.len() as int)));
            assert(split_semi(s) =~= seq![s.subrange(0, i)] + split_semi(
                s.subrange(i + 1, s.len() as int),
            ));
        }
    }
}

/// Removing empties from a single fragment keeps or drops it.
proof fn lemma_drop_empty_one(f: Seq<char>)
    ensures
        f.len() > 0 ==> drop_empty(seq![f]) == seq![f],
        f.len() == 0 ==> drop_empty(seq![f]) == Seq::<Seq<char>>::empty(),
{
    assert(seq![f].drop_first() =~= Seq::<Seq<char>>::empty());
    assert(drop_empty(Seq::<Seq<char>>::empty()) == Seq::<Seq<char>>::empty());
    if f.len() > 0 {
        assert(drop_empty(seq![f]) =~= seq![f] + Seq::<Seq<char>>::empty());
        assert(seq![f] + Seq::<Seq<char>>::empty() =~= seq![f]);
    }
}

/// Removing empty fragments distributes over concatenation.
proof fn lemma_drop_empty_concat(a: Seq<Seq<char>>, b: Seq<Seq<char>>)
    ensures
        drop_empty(a + b) == drop_empty(a) + drop_empty(b),
    decreases a.len(),
{
    if a.len() == 0 {
        assert(a + b =~= b);
        assert(drop_empty(a) + drop_empty(b) =~= drop_empty(b));
    } else {
        lemma_drop_empty_concat(a.drop_first(), b);
        assert((a + b).drop_first() =~= a.drop_first() + b);
        if a[0].len() > 0 {
            assert(drop_empty(a + b) =~= seq![a[0]] + (drop_empty(a.drop_first()) + drop_empty(
                b,
            )));
            assert(seq![a[0]] + (drop_empty(a.drop_first()) + drop_empty(b)) =~= drop_empty(a)
                + drop_empty(b));
        }
    }
}

/// Joining one more line appends a newline and that line.
proof fn lemma_join_nl_push(lines: Seq<Seq<char>>, x: Seq<char>)
    ensures
        lines.len() == 0 ==> join_nl(lines.push(x)) == x,
        lines.len() > 0 ==> join_nl(lines.push(x)) == join_nl(lines) + seq!['\n'] + x,
    decreases lines.len(),
{
    if lines.len() == 0 {
        assert(join_nl(lines.push(x)) == lines.push(x)[0]);
        assert(lines.push(x)[0] == x);
    } else {
        lemma_join_nl_push(lines.drop_first(), x);
        assert(lines.push(x).drop_first() =~= lines.drop_first().push(x));
        if lines.len() == 1 {
            assert(join_nl(lines.push(x)) == lines[0] + seq!['\n'] + x);
            assert(join_nl(lines) == lines[0]);
        } else {
            assert(join_nl(lines) + seq!['\n'] + x =~= lines[0] + seq!['\n'] + (join_nl(
                lines.drop_first(),
            ) + seq!['\n'] + x));
        }
    }
}

/// The tags on `line`: the semicolon-separated fragments, empty ones
/// dropped, each as an owned string.
pub fn split_tags(line: &str) -> (tags: Vec<String>)
    ensures
        tags.deep_view() == tags_of(line@),
{
    let n = line.unicode_len();
    let mut tags: Vec<String> = Vec::new();
    let mut start: usize = 0;
    let mut i: usize = 0;
    proof {
        assert(line@.skip(0) =~= line@);
        assert(tags.deep_view() =~= Seq::<Seq<char>>::empty());
    }
    while i < n
        invariant
            start <= i <= n,
            n == line@.len(),
            forall|k: int| start <= k < i ==> line@[k] != ';',
            tags_of(line@) == tags.deep_view() + drop_empty(split_semi(line@.skip(start as int))),
        decreases n - i,
    {
        let c = line.get_char(i);
        if c == ';' {
            let ghost tail = line@.skip(start as int);
            proof {
                lemma_split_semi_at(tail, i - start);
                assert(tail[i - start] == ';');
                assert(tail.subrange(0, i - start) =~= line@.subrange(
                    start as int,
                    i as int,
                ));
                assert(tail.subrange(i - start + 1, tail.len() as int) =~= line@.skip(
                    i + 1,
                ));
                lemma_drop_empty_concat(
                    seq![line@.subrange(start as int, i as int)],
                    split_semi(line@.skip(i + 1)),
                );
                assert(seq![line@.subrange(start as int, i as int)].drop_first()
                    =~= Seq::<Seq<char>>::empty());
            }
            if i > start {
                let frag = line.substring_char(start, i);
                let ghost before = tags.deep_view();
                tags.push(frag.to_owned());
                proof {
                    assert(tags.deep_view() =~= before.push(
                        line@.subrange(start as int, i as int),
                    ));
                    lemma_drop_empty_one(line@.subrange(start as int, i as int));
                    assert(before.push(line@.subrange(start as int, i as int)) =~= before
                        + seq![line@.subrange(start as int, i as int)]);
                }
            } else {
                proof {
                    assert(line@.subrange(start as int, i as int).len() == 0);
                    lemma_drop_empty_one(line@.subrange(start as int, i as int));
                }
            }
            start = i + 1;
        }
        i = i + 1;
    }
    // the fragment after the last semicolon
    let ghost tail = line@.skip(start as int);
    proof {
        lemma_split_semi_at(tail, n - start);
        assert(tail =~= line@.subrange(start as int, n as int));
    }
    if n > start {
        let frag = line.substring_char(start, n);
        let ghost before = tags.deep_view();
        tags.push(frag.to_owned());
        proof {
            assert(tags.deep_view() =~= before.push(tail));
            lemma_drop_empty_one(tail);
            assert(before.push(tail) =~= before + seq![tail]);
        }
    } else {
        proof {
            lemma_drop_empty_one(tail);
            assert(tags.deep_view() + Seq::<Seq<char>>::empty() =~= tags.deep_view());
        }
    }
    tags
}

/// The lines from position `from` onward, joined with newlines.
pub fn join_from(lines: &Vec<String>, from: usize) -> (r: String)
    requires
        from <= lines@.len(),
    ensures
        r@ == join_nl(lines.deep_view().skip(from as int)),
{
    let mut r = String::new();
    let mut i: usize = from;
    proof {
        assert(lines.deep_view().subrange(from as int, from as int)
            =~= Seq::<Seq<char>>::empty());
    }
    while i < lines.len()
        invariant
            from <= i <= lines@.len(),
            r@ == join_nl(lines.deep_view().subrange(from as int, i as int)),
        decreases lines@.len() - i,
    {
        let ghost sofar = lines.deep_view().subrange(from as int, i as int);
        proof {
            lemma_join_nl_push(sofar, lines.deep_view()[i as int]);
            assert(sofar.push(lines.deep_view()[i as int]) =~= lines.deep_view().subrange(
                from as int,
                i + 1,
            ));
            assert(lines.deep_view()[i as int] == lines@[i as int]@);
        }
        if i > from {
            r.append("\n");
            proof {
                reveal_strlit("\n");
                assert("\n"@ =~= seq!['\n']);
            }
        }
        r.append(lines[i].as_str());
        i = i + 1;
    }
    proof {
        assert(lines.deep_view().subrange(from as int, lines@.len() as int)
            =~= lines.deep_view().skip(from as int));
    }
    r
}

} // verus!
