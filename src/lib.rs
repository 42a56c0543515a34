use vstd::prelude::*;

pub mod formatting;
pub mod markdown;

use crate::markdown::{runs_view, scan, scan_chars, chars_of, DocumentElement, Paragraph};

verus! {

/// Splitting from position `i` on, with the current paragraph starting at
/// `start` and the paragraphs `acc` already closed: a blank line (two newlines)
/// ends a paragraph.
pub open spec fn split_from(text: Seq<char>, i: int, start: int, acc: Seq<Seq<char>>) -> Seq<
    Seq<char>,
>
    decreases text.len() - i,
{
    if i >= text.len() {
        acc.push(text.subrange(start, text.len() as int))
    } else if i + 1 < text.len() && text[i] == '\n' && text[i + 1] == '\n' {
        split_from(text, i + 2, i + 2, acc.push(text.subrange(start, i)))
    } else {
        split_from(text, i + 1, start, acc)
    }
}

/// The paragraphs of a document, in order; there is always at least one.
pub open spec fn paragraphs(text: Seq<char>) -> Seq<Seq<char>> {
    split_from(text, 0, 0, Seq::empty())
}

/// The output for a list of elements: each one rendered and followed by a
/// blank line.
pub open spec fn render_all<E: DocumentElement>(elements: Seq<E>) -> Seq<char>
    decreases elements.len(),
{
    if elements.len() == 0 {
        Seq::empty()
    } else {
        render_all(elements.drop_last()) + elements.last().rendered() + seq!['\n', '\n']
    }
}

fn copy_range(chars: &Vec<char>, from: usize, to: usize) -> (r: Vec<char>)
    requires
        from <= to <= chars.len(),
    ensures
        r@ == chars@.subrange(from as int, to as int),
{
    let mut r: Vec<char> = Vec::new();
    let mut k: usize = from;
    while k < to
        invariant
            from <= k <= to,
            to <= chars.len(),
            r@ == chars@.subrange(from as int, k as int),
        decreases to - k,
    {
        r.push(chars[k]);
        k = k + 1;
        assert(r@ =~= chars@.subrange(from as int, k as int));
    }
    r
}

/// Splits `text` into paragraphs at blank lines and scans each one.
pub fn parse(text: &str) -> (r: Vec<Paragraph>)
    ensures
        r.len() == paragraphs(text@).len(),
        forall|k: int|
            0 <= k < r.len() ==> runs_view(#[trigger] r[k].render_slices@) == scan(
                paragraphs(text@)[k],
            ),
{
    let chars = chars_of(text);
    let n = chars.len();
    let mut elements: Vec<Paragraph> = Vec::new();
    let ghost mut acc: Seq<Seq<char>> = Seq::empty();
    let mut start: usize = 0;
    let mut i: usize = 0;
    while i < n
        invariant
            n == chars.len(),
            chars@ == text@,
            start <= i <= n,
            elements.len() == acc.len(),
            forall|k: int|
                0 <= k < elements.len() ==> runs_view(#[trigger] elements[k].render_slices@)
                    == scan(acc[k]),
            split_from(chars@, i as int, start as int, acc) == paragraphs(text@),
        decreases n - i,
    {
        if i + 1 < n && chars[i] == '\n' && chars[i + 1] == '\n' {
            let piece = copy_range(&chars, start, i);
            elements.push(Paragraph { render_slices: scan_chars(&piece) });
            proof {
                acc = acc.push(chars@.subrange(start as int, i as int));
            }
            i = i + 2;
            start = i;
        } else {
            i = i + 1;
        }
    }
    let piece = copy_range(&chars, start, n);
    elements.push(Paragraph { render_slices: scan_chars(&piece) });
    proof {
        acc = acc.push(chars@.subrange(start as int, n as int));
    }
    elements
}

/// Renders each element in turn, each followed by a blank line.
pub fn render<E: DocumentElement>(elements: Vec<E>) -> (r: String)
    ensures
        r@ == render_all(elements@),
{
    let mut output = String::new();
    let mut k: usize = 0;
    assert(elements@.take(0) =~= Seq::<E>::empty());
    while k < elements.len()
        invariant
            k <= elements.len(),
            output@ == render_all(elements@.take(k as int)),
        decreases elements.len() - k,
    {
        let text = elements[k].render();
        output.append(text.as_str());
        output.append("\n\n");
        proof {
            reveal_strlit("\n\n");
            let t = elements@.take(k + 1);
            assert(t.drop_last() =~= elements@.take(k as int));
            assert(t.last() == elements@[k as int]);
        }
        k = k + 1;
        assert(output@ =~= render_all(elements@.take(k as int)));
    }
    assert(elements@.take(k as int) =~= elements@);
    output
}

} // verus!
