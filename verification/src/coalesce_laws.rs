//! What grouping characters into spans keeps: newlines are dropped and nothing
//! else, spans are non-empty runs of one style, and grouping the characters of
//! such spans gives them back.

use vstd::prelude::*;
use crate::style::Style;
use crate::wrap::{spec_coalesce, spec_to_chars};

verus! {

/// The characters without the newlines, in order.
pub open spec fn drop_newlines(cs: Seq<(char, Style)>) -> Seq<(char, Style)>
    decreases cs.len(),
{
    if cs.len() == 0 {
        Seq::empty()
    } else {
        let r = drop_newlines(cs.drop_last());
        if cs.last().0 == '\n' { r } else { r.push(cs.last()) }
    }
}

/// Spans as grouping makes them: each non-empty and free of newlines, and no two
/// neighbours of the same style.
pub open spec fn well_grouped(spans: Seq<(Seq<char>, Style)>) -> bool {
    &&& forall|i: int| 0 <= i < spans.len() ==> (#[trigger] spans[i]).0.len() > 0
    &&& forall|i: int, j: int| 0 <= i < spans.len() && 0 <= j < spans[i].0.len() ==> (#[trigger] spans[i].0[j]) != '\n'
    &&& forall|i: int| 0 <= i < spans.len() - 1 ==> (#[trigger] spans[i]).1 != spans[i + 1].1
}

proof fn lemma_to_chars_push(spans: Seq<(Seq<char>, Style)>, x: (Seq<char>, Style))
    ensures
        spec_to_chars(spans.push(x)) == spec_to_chars(spans) + x.0.map_values(|c: char| (c, x.1)),
{
    assert(spans.push(x).drop_last() == spans);
}

/// Grouping drops the newlines and nothing else, and makes well-grouped spans:
/// the characters of the spans, in order, are the input's without its newlines.
pub proof fn lemma_coalesce_keeps_characters(cs: Seq<(char, Style)>)
    ensures
        spec_to_chars(spec_coalesce(cs)) == drop_newlines(cs),
        well_grouped(spec_coalesce(cs)),
    decreases cs.len(),
{
    if cs.len() > 0 {
        lemma_coalesce_keeps_characters(cs.drop_last());
        let rest = spec_coalesce(cs.drop_last());
        let (c, st) = cs.last();
        let r = spec_coalesce(cs);
        if c != '\n' {
            if rest.len() > 0 && rest.last().1 == st {
                let n = rest.len() - 1;
                let text = rest.last().0;
                assert(r.drop_last() == rest.drop_last());
                assert(r.last() == (text.push(c), st));
                assert(text.push(c).map_values(|ch: char| (ch, st)) =~= text.map_values(|ch: char| (ch, st)).push((c, st)));
                assert(spec_to_chars(rest) == spec_to_chars(rest.drop_last()) + text.map_values(|ch: char| (ch, st)));
                assert(spec_to_chars(r) =~= spec_to_chars(rest).push((c, st)));
                assert forall|i: int, j: int| 0 <= i < r.len() && 0 <= j < r[i].0.len() implies (#[trigger] r[i].0[j]) != '\n' by {
                    if i < n {
                        assert(r[i] == rest[i]);
                    } else if j < text.len() {
                        assert(r[i].0[j] == text[j]);
                        assert(rest[n].0[j] == text[j]);
                    }
                }
                assert forall|i: int| 0 <= i < r.len() - 1 implies (#[trigger] r[i]).1 != r[i + 1].1 by {
                    assert(r[i] == rest[i]);
                    assert(r[i + 1].1 == rest[i + 1].1);
                }
                assert forall|i: int| 0 <= i < r.len() implies (#[trigger] r[i]).0.len() > 0 by {
                    if i < n {
                        assert(r[i] == rest[i]);
                    }
                }
            } else {
                lemma_to_chars_push(rest, (seq![c], st));
                assert(seq![c].map_values(|ch: char| (ch, st)) =~= seq![(c, st)]);
                assert(spec_to_chars(r) =~= spec_to_chars(rest).push((c, st)));
                assert forall|i: int, j: int| 0 <= i < r.len() && 0 <= j < r[i].0.len() implies (#[trigger] r[i].0[j]) != '\n' by {
                    if i < rest.len() {
                        assert(r[i] == rest[i]);
                    }
                }
                assert forall|i: int| 0 <= i < r.len() - 1 implies (#[trigger] r[i]).1 != r[i + 1].1 by {
                    assert(r[i] == rest[i]);
                    if i + 1 < rest.len() {
                        assert(r[i + 1] == rest[i + 1]);
                    }
                }
                assert forall|i: int| 0 <= i < r.len() implies (#[trigger] r[i]).0.len() > 0 by {
                    if i < rest.len() {
                        assert(r[i] == rest[i]);
                    }
                }
            }
        }
    }
}

proof fn lemma_coalesce_run(cs: Seq<(char, Style)>, t: Seq<char>, st: Style)
    requires
        t.len() > 0,
        forall|j: int| 0 <= j < t.len() ==> t[j] != '\n',
        spec_coalesce(cs).len() > 0 ==> spec_coalesce(cs).last().1 != st,
    ensures
        spec_coalesce(cs + t.map_values(|c: char| (c, st))) == spec_coalesce(cs).push((t, st)),
    decreases t.len(),
{
    let x = t.last();
    let init = t.drop_last();
    let all = cs + t.map_values(|c: char| (c, st));
    assert(all.drop_last() =~= cs + init.map_values(|c: char| (c, st)));
    assert(all.last() == (x, st));
    if init.len() == 0 {
        assert(cs + init.map_values(|c: char| (c, st)) =~= cs);
        assert(t =~= seq![x]);
    } else {
        lemma_coalesce_run(cs, init, st);
        let rest = spec_coalesce(cs).push((init, st));
        assert(init.push(x) =~= t);
        assert(rest.update(rest.len() - 1, (init.push(x), st)) =~= spec_coalesce(cs).push((t, st)));
    }
}

/// Grouping the characters of well-grouped spans gives the same spans back.
pub proof fn lemma_coalesce_round_trip(spans: Seq<(Seq<char>, Style)>)
    requires
        well_grouped(spans),
    ensures
        spec_coalesce(spec_to_chars(spans)) == spans,
    decreases spans.len(),
{
    if spans.len() > 0 {
        let init = spans.drop_last();
        let last = spans.last();
        assert(well_grouped(init)) by {
            assert forall|i: int| 0 <= i < init.len() implies (#[trigger] init[i]).0.len() > 0 by {
                assert(init[i] == spans[i]);
            }
            assert forall|i: int, j: int| 0 <= i < init.len() && 0 <= j < init[i].0.len() implies (#[trigger] init[i].0[j]) != '\n' by {
                assert(init[i] == spans[i]);
                assert(spans[i].0[j] != '\n');
            }
            assert forall|i: int| 0 <= i < init.len() - 1 implies (#[trigger] init[i]).1 != init[i + 1].1 by {
                assert(init[i] == spans[i]);
                assert(init[i + 1] == spans[i + 1]);
            }
        }
        lemma_coalesce_round_trip(init);
        assert(last == spans[spans.len() - 1]);
        assert(last.0.len() > 0);
        assert forall|j: int| 0 <= j < last.0.len() implies last.0[j] != '\n' by {
            assert(spans[spans.len() - 1].0[j] != '\n');
        }
        if init.len() > 0 {
            assert(init.last() == spans[spans.len() - 2]);
            assert(spans[spans.len() - 2].1 != spans[spans.len() - 1].1);
        }
        lemma_coalesce_run(spec_to_chars(init), last.0, last.1);
        assert(init.push(last) =~= spans);
    }
}

} // verus!
