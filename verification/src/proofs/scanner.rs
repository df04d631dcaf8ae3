//! The scanner: what it finds in a string, and what it finds in the text
//! that was written from contents.

use vstd::prelude::*;
use crate::chars::{is_unit, lemma_run_end, lemma_run_end_is, run_end, CharClass};
use crate::fragment::{
    content_of, content_text, is_content, reread, rereads, written, ContentView, FragmentView,
};
use crate::parser::{
    all_reread, all_taken, contents, followed_by, fragments_from, is_sequence, reread_all,
};
use crate::proofs::content::{lemma_content_read, lemma_content_unit, lemma_rereads_exactly};

verus! {

/// What is found from `pos` on is what a parsed string can hold, and where
/// a `{` stands at `pos`, the first fragment is no literal text.
pub proof fn lemma_fragments_read(s: Seq<char>, pos: int)
    requires
        0 <= pos <= s.len(),
    ensures
        fragments_from(s, pos) matches Ok(f) ==> {
            &&& is_sequence(contents(f))
            &&& pos < s.len() ==> f.len() > 0
            &&& pos < s.len() && s[pos] == '{' ==> !(f[0].content is Text)
        },
    decreases s.len() - pos,
{
    if let Ok(f) = fragments_from(s, pos) {
        if pos < s.len() {
            let open = run_end(s, pos, s.len() as int, CharClass::Literal);
            let close = run_end(s, pos, s.len() as int, CharClass::Inside);
            lemma_run_end(s, pos, s.len() as int, CharClass::Literal);
            lemma_run_end(s, pos, s.len() as int, CharClass::Inside);
            let next = if open > pos {
                open
            } else {
                close + 1
            };
            lemma_fragments_read(s, next);
            let rest = fragments_from(s, next)->Ok_0;
            let cs = contents(f);
            assert(f.len() == rest.len() + 1);
            assert(forall|i: int| 0 < i < f.len() ==> f[i] == rest[i - 1]);
            if open > pos {
                let t = s.subrange(pos, open);
                assert(cs[0] == ContentView::Text(t));
                assert forall|i: int| 0 <= i < t.len() implies CharClass::Literal.holds(
                    #[trigger] t[i],
                ) by {
                    assert(t[i] == s[pos + i]);
                }
            } else {
                let span = s.subrange(pos, close + 1);
                assert forall|i: int| 1 <= i < span.len() - 1 implies CharClass::Inside.holds(
                    #[trigger] span[i],
                ) by {
                    assert(span[i] == s[pos + i]);
                }
                lemma_content_read(span);
            }
            assert(is_content(cs[0]));
            assert forall|i: int| 0 <= i < cs.len() implies is_content(#[trigger] cs[i]) by {
                if i > 0 {
                    assert(cs[i] == contents(rest)[i - 1]);
                }
            }
            assert forall|i: int| 0 <= i < cs.len() - 1 implies !((#[trigger] cs[i]) is Text && cs[i
                + 1] is Text) by {
                if i > 0 {
                    assert(cs[i] == contents(rest)[i - 1]);
                    assert(cs[i + 1] == contents(rest)[i]);
                } else {
                    assert(cs[1] == rest[0].content);
                }
            }
        } else {
            assert(f.len() == 0);
        }
    }
}

/// Literal text up to a `{` or to the end of the string is one fragment.
pub proof fn lemma_text_step(s: Seq<char>, pos: int, next: int)
    requires
        0 <= pos < next <= s.len(),
        forall|i: int| pos <= i < next ==> s[i] != '{',
        next < s.len() ==> s[next] == '{',
    ensures
        fragments_from(s, pos) == followed_by(
            seq![
                FragmentView {
                    pos_begin: pos as nat,
                    pos_end: next as nat,
                    content: ContentView::Text(s.subrange(pos, next)),
                },
            ],
            fragments_from(s, next),
        ),
{
    lemma_run_end_is(s, pos, s.len() as int, CharClass::Literal, next);
}

/// A span that closes at its first `}` and that a grammar takes is one
/// fragment.
pub proof fn lemma_span_step(s: Seq<char>, pos: int, next: int)
    requires
        0 <= pos < next <= s.len(),
        is_unit(s.subrange(pos, next)),
        content_of(s.subrange(pos, next)) is Some,
    ensures
        fragments_from(s, pos) == followed_by(
            seq![
                FragmentView {
                    pos_begin: pos as nat,
                    pos_end: next as nat,
                    content: content_of(s.subrange(pos, next))->Some_0,
                },
            ],
            fragments_from(s, next),
        ),
{
    let span = s.subrange(pos, next);
    assert(s[pos] == span[0]);
    assert(s[next - 1] == span[span.len() - 1]);
    assert forall|i: int| pos <= i < next - 1 implies CharClass::Inside.holds(#[trigger] s[i]) by {
        assert(s[i] == span[i - pos]);
    }
    lemma_run_end_is(s, pos, s.len() as int, CharClass::Literal, pos);
    lemma_run_end_is(s, pos, s.len() as int, CharClass::Inside, next - 1);
}

/// What a parsed string can hold, without its first content, is what a
/// parsed string can hold.
pub proof fn lemma_sequence_tail(cs: Seq<ContentView>)
    requires
        cs.len() > 0,
        is_sequence(cs),
    ensures
        is_sequence(cs.drop_first()),
        is_content(cs[0]),
        cs[0] is Text && cs.len() > 1 ==> !(cs.drop_first()[0] is Text),
{
    let tail = cs.drop_first();
    assert forall|i: int| 0 <= i < tail.len() implies is_content(#[trigger] tail[i]) by {
        assert(tail[i] == cs[i + 1]);
    }
    assert forall|i: int| 0 <= i < tail.len() - 1 implies !((#[trigger] tail[i]) is Text && tail[i
        + 1] is Text) by {
        assert(tail[i] == cs[i + 1]);
        assert(tail[i + 1] == cs[i + 2]);
    }
    if cs.len() > 1 {
        assert(tail[0] == cs[1]);
        assert(!(cs[0] is Text && cs[1] is Text));
    }
}

/// The text of contents opens with the text of the first.
pub proof fn lemma_written_split(s: Seq<char>, pos: int, cs: Seq<ContentView>)
    requires
        0 <= pos <= s.len(),
        s.subrange(pos, s.len() as int) == written(cs),
        cs.len() > 0,
    ensures
        pos + content_text(cs[0]).len() <= s.len(),
        s.subrange(pos, pos + content_text(cs[0]).len()) == content_text(cs[0]),
        s.subrange(pos + content_text(cs[0]).len(), s.len() as int) == written(cs.drop_first()),
{
    let text = written(cs);
    let unit = content_text(cs[0]);
    let rest = written(cs.drop_first());
    assert(text == unit + rest);
    assert(text.len() == s.len() - pos);
    assert forall|k: int| 0 <= k < text.len() implies s[pos + k] == text[k] by {
        assert(s.subrange(pos, s.len() as int)[k] == s[pos + k]);
    }
    assert(s.subrange(pos, pos + unit.len()) =~= unit) by {
        assert forall|k: int| 0 <= k < unit.len() implies s[pos + k] == unit[k] by {
            assert(text[k] == unit[k]);
        }
    }
    assert(s.subrange(pos + unit.len(), s.len() as int) =~= rest) by {
        assert forall|k: int| 0 <= k < rest.len() implies s[pos + unit.len() + k] == rest[k] by {
            assert(text[unit.len() + k] == rest[k]);
        }
    }
}

/// What a fragment and those behind it hold is what the fragment holds and
/// what those behind it hold.
pub proof fn lemma_contents_first(x: FragmentView, rest: Seq<FragmentView>)
    ensures
        contents(seq![x] + rest) == seq![x.content] + contents(rest),
{
    assert(contents(seq![x] + rest) =~= seq![x.content] + contents(rest));
}

/// A span that closes at its first `}` and that no grammar takes is an
/// error.
pub proof fn lemma_span_fails(s: Seq<char>, pos: int, next: int)
    requires
        0 <= pos < next <= s.len(),
        is_unit(s.subrange(pos, next)),
        content_of(s.subrange(pos, next)) is None,
    ensures
        fragments_from(s, pos) is Err,
{
    let span = s.subrange(pos, next);
    assert(s[pos] == span[0]);
    assert(s[next - 1] == span[span.len() - 1]);
    assert forall|i: int| pos <= i < next - 1 implies CharClass::Inside.holds(#[trigger] s[i]) by {
        assert(s[i] == span[i - pos]);
    }
    lemma_run_end_is(s, pos, s.len() as int, CharClass::Literal, pos);
    lemma_run_end_is(s, pos, s.len() as int, CharClass::Inside, next - 1);
}

/// What is read from the texts of contents is what is read from the text
/// of the first and from the texts of the others.
pub proof fn lemma_reread_tail(cs: Seq<ContentView>)
    requires
        cs.len() > 0,
    ensures
        all_taken(cs) <==> reread(cs[0]) is Some && all_taken(cs.drop_first()),
        all_taken(cs) ==> reread_all(cs) == seq![reread(cs[0])->Some_0] + reread_all(
            cs.drop_first(),
        ),
{
    let tail = cs.drop_first();
    if all_taken(cs) {
        assert forall|i: int| 0 <= i < tail.len() implies (#[trigger] reread(tail[i])) is Some by {
            assert(tail[i] == cs[i + 1]);
            assert(reread(cs[i + 1]) is Some);
        }
        assert(reread(cs[0]) is Some);
        assert(reread_all(cs) =~= seq![reread(cs[0])->Some_0] + reread_all(tail));
    }
    if reread(cs[0]) is Some && all_taken(tail) {
        assert forall|i: int| 0 <= i < cs.len() implies (#[trigger] reread(cs[i])) is Some by {
            if i > 0 {
                assert(cs[i] == tail[i - 1]);
                assert(reread(tail[i - 1]) is Some);
            }
        }
    }
}

/// Where the rest of `s` from `pos` on is the canonical text of what a
/// parsed string can hold, and opens with literal text, that text is the
/// first fragment found.
proof fn lemma_written_text(s: Seq<char>, pos: int, cs: Seq<ContentView>)
    requires
        0 <= pos <= s.len(),
        s.subrange(pos, s.len() as int) == written(cs),
        is_sequence(cs),
        cs.len() > 0,
        cs[0] is Text,
    ensures
        pos < pos + content_text(cs[0]).len() <= s.len(),
        fragments_from(s, pos) == followed_by(
            seq![
                FragmentView {
                    pos_begin: pos as nat,
                    pos_end: (pos + content_text(cs[0]).len()) as nat,
                    content: cs[0],
                },
            ],
            fragments_from(s, pos + content_text(cs[0]).len()),
        ),
{
    let unit = content_text(cs[0]);
    let tail = cs.drop_first();
    let next: int = pos + unit.len();
    lemma_written_split(s, pos, cs);
    lemma_sequence_tail(cs);
    let span = s.subrange(pos, next);
    assert forall|i: int| pos <= i < next implies s[i] != '{' by {
        assert(s[i] == span[i - pos]);
        assert(CharClass::Literal.holds(unit[i - pos]));
    }
    if next < s.len() {
        // What follows literal text is no literal text: it opens with a brace.
        assert(tail.len() > 0) by {
            if tail.len() == 0 {
                assert(written(tail).len() == 0);
            }
        }
        lemma_sequence_tail(tail);
        lemma_content_unit(tail[0]);
        lemma_written_split(s, next, tail);
        let after = s.subrange(next, next + content_text(tail[0]).len());
        assert(s[next] == after[0]);
    }
    lemma_text_step(s, pos, next);
}

/// Where the rest of `s` from `pos` on is the canonical text of what a
/// parsed string can hold, the fragments found from `pos` on hold what is
/// read from the text of each content; an error is found where nothing is
/// read from the text of some content, and only there.
pub proof fn lemma_fragments_rewritten(s: Seq<char>, pos: int, cs: Seq<ContentView>)
    requires
        0 <= pos <= s.len(),
        s.subrange(pos, s.len() as int) == written(cs),
        is_sequence(cs),
    ensures
        match fragments_from(s, pos) {
            Ok(f) => all_taken(cs) && contents(f) == reread_all(cs),
            Err(_) => !all_taken(cs),
        },
    decreases cs.len(),
{
    if cs.len() == 0 {
        assert(written(cs).len() == 0);
        assert(pos == s.len());
        assert(contents(Seq::<FragmentView>::empty()) =~= reread_all(cs));
    } else {
        let next: int = pos + content_text(cs[0]).len();
        lemma_written_split(s, pos, cs);
        lemma_sequence_tail(cs);
        lemma_reread_tail(cs);
        lemma_fragments_rewritten(s, next, cs.drop_first());
        if cs[0] is Text {
            lemma_written_text(s, pos, cs);
        } else {
            lemma_content_unit(cs[0]);
            if content_of(content_text(cs[0])) is Some {
                lemma_span_step(s, pos, next);
            } else {
                lemma_span_fails(s, pos, next);
            }
        }
        if reread(cs[0]) is Some {
            if let Ok(rest) = fragments_from(s, next) {
                let first = FragmentView {
                    pos_begin: pos as nat,
                    pos_end: next as nat,
                    content: reread(cs[0])->Some_0,
                };
                lemma_contents_first(first, rest);
            }
        }
    }
}

/// Where the rest of `s` from `pos` on is the canonical text of what a
/// parsed string can hold, the fragments found from `pos` on hold exactly
/// those contents if and only if each content is read again as itself.
pub proof fn lemma_fragments_written(s: Seq<char>, pos: int, cs: Seq<ContentView>)
    requires
        0 <= pos <= s.len(),
        s.subrange(pos, s.len() as int) == written(cs),
        is_sequence(cs),
    ensures
        all_reread(cs) <==> (fragments_from(s, pos) matches Ok(f) && contents(f) == cs),
{
    lemma_fragments_rewritten(s, pos, cs);
    assert forall|i: int| 0 <= i < cs.len() implies (rereads(#[trigger] cs[i]) <==> reread(cs[i])
        == Some(cs[i])) by {
        lemma_rereads_exactly(cs[i]);
    }
    if all_reread(cs) {
        assert(all_taken(cs));
        assert(reread_all(cs) =~= cs);
    }
    if let Ok(f) = fragments_from(s, pos) {
        if contents(f) == cs {
            assert forall|i: int| 0 <= i < cs.len() implies rereads(#[trigger] cs[i]) by {
                assert(reread(cs[i]) is Some);
                assert(reread_all(cs)[i] == cs[i]);
            }
        }
    }
}

} // verus!
