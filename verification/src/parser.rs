//! Whole strings: the scanner that cuts a string into fragments, and the
//! writer that puts the fragments together again.

use vstd::prelude::*;
use vstd::slice::slice_subrange;
use crate::chars::{lemma_run_end, run_end, skip, CharClass};
use crate::fragment::{
    content_of, invalid_message, is_content, lemma_written_push, reread, rereads, written,
    ContentView, FragmentContent, FragmentView, StringFragment,
};
use crate::text::{chars_of, push_chars, string_of};

verus! {

/// A string cut into its fragments.
#[derive(Debug, PartialEq)]
pub struct ParsedString {
    /// The fragments, in the order in which they stood.
    pub fragments: Vec<StringFragment>,
}

/// Why a string could not be parsed, and where.
#[derive(Debug, PartialEq)]
pub struct ParserError {
    /// The position of the `{` that opens the span at fault.
    pub pos_begin: usize,
    /// The position behind that span; absent where the span never closes.
    pub pos_end: Option<usize>,
    /// What is wrong.
    pub message: String,
}

/// What a `ParserError` holds, as plain values.
pub struct ErrorView {
    pub pos_begin: nat,
    pub pos_end: Option<nat>,
    pub message: Seq<char>,
}

impl View for ParserError {
    type V = ErrorView;

    open spec fn view(&self) -> ErrorView {
        ErrorView {
            pos_begin: self.pos_begin as nat,
            pos_end: match self.pos_end {
                Some(e) => Some(e as nat),
                None => None,
            },
            message: self.message@,
        }
    }
}

/// The fragments of a list, as plain values.
pub open spec fn fragment_views(v: Seq<StringFragment>) -> Seq<FragmentView> {
    Seq::new(v.len(), |i: int| v[i]@)
}

impl View for ParsedString {
    type V = Seq<FragmentView>;

    open spec fn view(&self) -> Seq<FragmentView> {
        fragment_views(self.fragments@)
    }
}

/// What is said of a span that never closes.
pub open spec fn unterminated_message() -> Seq<char> {
    "Unterminated string command, '}' expected."@
}

/// The fragments `done`, followed by what `rest` found; the error of `rest`
/// where it found one.
pub open spec fn followed_by(done: Seq<FragmentView>, rest: Result<Seq<FragmentView>, ErrorView>)
    -> Result<Seq<FragmentView>, ErrorView> {
    match rest {
        Ok(r) => Ok(done + r),
        Err(e) => Err(e),
    }
}

/// The fragments of `s` from position `pos` on, or the first error.
///
/// Up to the next `{` everything is one fragment of literal text. A `{`
/// opens a span that runs to the first `}` behind it, whatever stands
/// between them. A span that never closes is an error without an end
/// position; a span that no grammar takes is an error that ends behind the
/// span.
pub open spec fn fragments_from(s: Seq<char>, pos: int) -> Result<Seq<FragmentView>, ErrorView>
    decreases s.len() - pos,
{
    let open = run_end(s, pos, s.len() as int, CharClass::Literal);
    let close = run_end(s, pos, s.len() as int, CharClass::Inside);
    if pos < 0 || pos >= s.len() {
        Ok(Seq::empty())
    } else if open > pos {
        proof {
            lemma_run_end(s, pos, s.len() as int, CharClass::Literal);
        }
        followed_by(
            seq![
                FragmentView {
                    pos_begin: pos as nat,
                    pos_end: open as nat,
                    content: ContentView::Text(s.subrange(pos, open)),
                },
            ],
            fragments_from(s, open),
        )
    } else if close >= s.len() {
        Err(ErrorView { pos_begin: pos as nat, pos_end: None, message: unterminated_message() })
    } else {
        match content_of(s.subrange(pos, close + 1)) {
            Some(content) => {
                proof {
                    lemma_run_end(s, pos, s.len() as int, CharClass::Inside);
                }
                followed_by(
                    seq![FragmentView { pos_begin: pos as nat, pos_end: (close + 1) as nat, content }],
                    fragments_from(s, close + 1),
                )
            },
            None => Err(
                ErrorView {
                    pos_begin: pos as nat,
                    pos_end: Some((close + 1) as nat),
                    message: invalid_message(s.subrange(pos, close + 1)),
                },
            ),
        }
    }
}

/// The fragments of a string, or the first error in it.
pub open spec fn parsed(s: Seq<char>) -> Result<Seq<FragmentView>, ErrorView> {
    fragments_from(s, 0)
}

/// The fragments lie one behind the other and cover `from..to`: the first
/// begins at `from`, each begins where the one before it ends, none is
/// empty, and the last ends at `to`.
pub open spec fn covers(f: Seq<FragmentView>, from: nat, to: nat) -> bool {
    &&& f.len() == 0 ==> from == to
    &&& f.len() > 0 ==> f[0].pos_begin == from && f.last().pos_end == to
    &&& forall|i: int| 0 <= i < f.len() ==> (#[trigger] f[i]).pos_begin < f[i].pos_end
    &&& forall|i: int| 0 <= i < f.len() - 1 ==> (#[trigger] f[i]).pos_end == f[i + 1].pos_begin
}

/// What the fragments hold, without their positions.
pub open spec fn contents(f: Seq<FragmentView>) -> Seq<ContentView> {
    Seq::new(f.len(), |i: int| f[i].content)
}

/// The text that the fragments write, one behind the other. The positions
/// play no part.
pub open spec fn compiled(f: Seq<FragmentView>) -> Seq<char> {
    written(contents(f))
}

/// The fragments found from `pos` on cover the rest of the string.
pub proof fn lemma_fragments_cover(s: Seq<char>, pos: int)
    requires
        0 <= pos <= s.len(),
    ensures
        fragments_from(s, pos) matches Ok(f) ==> covers(f, pos as nat, s.len()),
    decreases s.len() - pos,
{
    let open = run_end(s, pos, s.len() as int, CharClass::Literal);
    let close = run_end(s, pos, s.len() as int, CharClass::Inside);
    lemma_run_end(s, pos, s.len() as int, CharClass::Literal);
    lemma_run_end(s, pos, s.len() as int, CharClass::Inside);
    if pos < s.len() {
        let next = if open > pos {
            open
        } else {
            close + 1
        };
        if next <= s.len() {
            lemma_fragments_cover(s, next);
            if let Ok(f) = fragments_from(s, pos) {
                let rest = fragments_from(s, next)->Ok_0;
                assert(f.len() == rest.len() + 1);
                assert(forall|i: int| 0 < i < f.len() ==> f[i] == rest[i - 1]);
                assert(covers(rest, next as nat, s.len()));
                assert forall|i: int| 0 <= i < f.len() - 1 implies (#[trigger] f[i]).pos_end == f[i
                    + 1].pos_begin by {
                    if i > 0 {
                        assert(rest[i - 1].pos_end == rest[i].pos_begin);
                    }
                }
            }
        }
    }
}

impl ParsedString {
    /// Cuts a string into its fragments. Fails at the first span that never
    /// closes or that no grammar takes; nothing is returned of the
    /// fragments before it. Positions count characters.
    #[verifier::loop_isolation(false)]
    pub fn parse(string: &str) -> (r: Result<ParsedString, ParserError>)
        ensures
            match r {
                Ok(p) => parsed(string@) == Ok::<Seq<FragmentView>, ErrorView>(p@),
                Err(e) => parsed(string@) == Err::<Seq<FragmentView>, ErrorView>(e@),
            },
            r matches Ok(p) ==> covers(p@, 0, string@.len()),
    {
        let chars = chars_of(string);
        let s = chars.as_slice();
        let n = s.len();
        let mut fragments: Vec<StringFragment> = Vec::new();
        let mut pos: usize = 0;
        assert(followed_by(Seq::empty(), fragments_from(s@, 0)) == fragments_from(s@, 0)) by {
            if let Ok(f) = fragments_from(s@, 0) {
                assert(Seq::<FragmentView>::empty() + f =~= f);
            }
        }
        while pos < n
            invariant
                pos <= n,
                parsed(s@) == followed_by(
                    fragment_views(fragments@),
                    fragments_from(s@, pos as int),
                ),
            decreases n - pos,
        {
            let ghost done = fragment_views(fragments@);
            let open = skip(s, pos, n, CharClass::Literal);
            if open > pos {
                let fragment = StringFragment {
                    pos_begin: pos,
                    pos_end: open,
                    content: FragmentContent::Text(string_of(s, pos, open)),
                };
                proof {
                    lemma_followed_by_push(done, fragment@, fragments_from(s@, open as int));
                }
                fragments.push(fragment);
                assert(fragment_views(fragments@) =~= done.push(fragment@));
                pos = open;
            } else {
                let close = skip(s, pos, n, CharClass::Inside);
                if close >= n {
                    let mut message = String::new();
                    push_chars(&mut message, "Unterminated string command, '}' expected.");
                    assert(message@ =~= unterminated_message());
                    return Err(ParserError { pos_begin: pos, pos_end: None, message });
                }
                let span = slice_subrange(s, pos, close + 1);
                match FragmentContent::from_chars(span) {
                    Ok(content) => {
                        let fragment = StringFragment { pos_begin: pos, pos_end: close + 1, content };
                        proof {
                            lemma_followed_by_push(
                                done,
                                fragment@,
                                fragments_from(s@, close + 1),
                            );
                        }
                        fragments.push(fragment);
                        assert(fragment_views(fragments@) =~= done.push(fragment@));
                        pos = close + 1;
                    },
                    Err(message) => {
                        return Err(
                            ParserError { pos_begin: pos, pos_end: Some(close + 1), message },
                        );
                    },
                }
            }
        }
        proof {
            assert(fragment_views(fragments@) + Seq::<FragmentView>::empty() =~= fragment_views(
                fragments@,
            ));
            lemma_fragments_cover(s@, 0);
        }
        Ok(ParsedString { fragments })
    }

    /// Writes the fragments in their canonical form, one behind the other.
    /// The positions play no part.
    pub fn compile(&self) -> (r: String)
        ensures
            r@ == compiled(self@),
    {
        let mut r = String::new();
        let mut k: usize = 0;
        while k < self.fragments.len()
            invariant
                k <= self.fragments@.len(),
                r@ == written(contents(self@).take(k as int)),
            decreases self.fragments@.len() - k,
        {
            let t = self.fragments[k].content.compile();
            proof {
                let done = contents(self@).take(k as int);
                lemma_written_push(done, self.fragments@[k as int].content@);
                assert(contents(self@).take(k + 1) =~= done.push(self.fragments@[k as int].content@));
            }
            push_chars(&mut r, t.as_str());
            k += 1;
        }
        assert(contents(self@).take(k as int) =~= contents(self@));
        r
    }
}

/// Putting a fragment at the end of what is done is the same as putting it
/// in front of what follows.
pub proof fn lemma_followed_by_push(
    done: Seq<FragmentView>,
    x: FragmentView,
    rest: Result<Seq<FragmentView>, ErrorView>,
)
    ensures
        followed_by(done, followed_by(seq![x], rest)) == followed_by(done.push(x), rest),
{
    if let Ok(r) = rest {
        assert(done + (seq![x] + r) =~= done.push(x) + r);
    }
}

/// What a parsed string can hold: every content is one that a fragment can
/// hold, and no literal text follows literal text.
pub open spec fn is_sequence(cs: Seq<ContentView>) -> bool {
    &&& forall|i: int| 0 <= i < cs.len() ==> is_content(#[trigger] cs[i])
    &&& forall|i: int| 0 <= i < cs.len() - 1 ==> !((#[trigger] cs[i]) is Text && cs[i + 1] is Text)
}

/// Every content is read again as itself from its canonical text.
pub open spec fn all_reread(cs: Seq<ContentView>) -> bool {
    forall|i: int| 0 <= i < cs.len() ==> rereads(#[trigger] cs[i])
}

/// Something is read from the canonical text of every content.
pub open spec fn all_taken(cs: Seq<ContentView>) -> bool {
    forall|i: int| 0 <= i < cs.len() ==> (#[trigger] reread(cs[i])) is Some
}

/// What is read from the canonical text of each content.
pub open spec fn reread_all(cs: Seq<ContentView>) -> Seq<ContentView> {
    Seq::new(cs.len(), |i: int| reread(cs[i])->Some_0)
}

} // verus!
