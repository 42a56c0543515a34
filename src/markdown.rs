use vstd::prelude::*;

use crate::formatting::{
    apply_codes, change_plan, codes_text, lemma_apply_codes_concat, lemma_change_is_invertible,
    lemma_codes_text_concat, plain, Attribute, Code, Format,
};

verus! {

/// A run list: pieces of text, each with the style active over it.
pub type Runs = Seq<(Seq<char>, Format)>;

/// Something that can be written out as text with embedded style codes.
pub trait DocumentElement {
    spec fn rendered(&self) -> Seq<char>;

    fn render(&self) -> (r: String)
        ensures
            r@ == self.rendered(),
    ;
}

/// A paragraph, held as its styled runs.
pub struct Paragraph {
    pub render_slices: Vec<(String, Format)>,
}

/// The mathematical run list of a vector of runs.
pub open spec fn runs_view(v: Seq<(String, Format)>) -> Runs {
    v.map_values(|p: (String, Format)| (p.0@, p.1))
}

/// Adds the run `(s, f)` to `runs` unless `s` is empty.
pub open spec fn emit(runs: Runs, s: Seq<char>, f: Format) -> Runs {
    if s.len() == 0 {
        runs
    } else {
        runs.push((s, f))
    }
}

/// The scanner's running state: the position of the next character, where the
/// pending slice starts, the active style, and the runs produced so far.
pub type ScanState = (int, int, Format, Runs);

/// What the scanner does with the character at position `i` (`i < text.len()`).
pub open spec fn step(text: Seq<char>, i: int, start: int, f: Format, runs: Runs) -> ScanState {
    let pending = text.subrange(start, i);
    let c = text[i];
    let doubled = i + 1 < text.len() && text[i + 1] == c;
    if c == '\\' {
        if i + 1 < text.len() {
            (i + 2, i + 1, f, emit(runs, pending, f))
        } else {
            (i + 1, i + 1, f, emit(runs, pending, f))
        }
    } else if c == '\n' {
        (i + 1, i + 1, f, emit(runs, pending.push(' '), f))
    } else if c == '*' && doubled {
        (i + 2, i + 2, f.with(Attribute::Bold, !f.bold), emit(runs, pending, f))
    } else if c == '*' {
        (i + 1, i + 1, f.with(Attribute::Italic, !f.italic), emit(runs, pending, f))
    } else if c == '~' && doubled {
        (i + 2, i + 2, f.with(Attribute::Strikethrough, !f.strikethrough), emit(runs, pending, f))
    } else {
        (i + 1, start, f, runs)
    }
}

/// The scanner from position `i` on, with the pending slice starting at `start`,
/// style `f` active and `runs` already produced; at the end the pending slice
/// is flushed.
pub open spec fn scan_from(text: Seq<char>, i: int, start: int, f: Format, runs: Runs) -> Runs
    decreases text.len() - i,
{
    if i >= text.len() {
        emit(runs, text.subrange(start, text.len() as int), f)
    } else {
        let (ni, ns, nf, nr) = step(text, i, start, f, runs);
        // every step moves forward
        if ni > i {
            scan_from(text, ni, ns, nf, nr)
        } else {
            runs
        }
    }
}

/// The run list of a paragraph's text.
pub open spec fn scan(text: Seq<char>) -> Runs {
    scan_from(text, 0, 0, plain(), Seq::empty())
}

/// The output for `runs` when the terminal is in style `previous`: for each run
/// the change codes into its style and its text, then the codes back to no style.
pub open spec fn render_from(runs: Runs, previous: Format) -> Seq<char>
    decreases runs.len(),
{
    if runs.len() == 0 {
        codes_text(change_plan(previous, plain()))
    } else {
        codes_text(change_plan(previous, runs[0].1)) + runs[0].0 + render_from(
            runs.drop_first(),
            runs[0].1,
        )
    }
}

/// The rendered text of a run list.
pub open spec fn render_runs(runs: Runs) -> Seq<char> {
    render_from(runs, plain())
}

/// The codes that the renderer emits for `runs` from style `previous`, in order.
pub open spec fn transitions_from(runs: Runs, previous: Format) -> Seq<Code>
    decreases runs.len(),
{
    if runs.len() == 0 {
        change_plan(previous, plain())
    } else {
        change_plan(previous, runs[0].1) + transitions_from(runs.drop_first(), runs[0].1)
    }
}

/// `runs` with every text emptied, styles kept.
pub open spec fn without_text(runs: Runs) -> Runs {
    runs.map_values(|r: (Seq<char>, Format)| (Seq::<char>::empty(), r.1))
}

/// The codes in the output are `transitions_from`, in order: with every run's
/// text emptied, the output is exactly their text.
pub proof fn lemma_render_codes_are_transitions(runs: Runs, previous: Format)
    ensures
        render_from(without_text(runs), previous) == codes_text(transitions_from(runs, previous)),
    decreases runs.len(),
{
    if runs.len() > 0 {
        let next = runs[0].1;
        assert(without_text(runs).drop_first() =~= without_text(runs.drop_first()));
        lemma_render_codes_are_transitions(runs.drop_first(), next);
        lemma_codes_text_concat(change_plan(previous, next), transitions_from(runs.drop_first(), next));
        assert(render_from(without_text(runs), previous) =~= codes_text(
            transitions_from(runs, previous),
        ));
    }
}

proof fn lemma_transitions_close_from(runs: Runs, previous: Format)
    ensures
        apply_codes(previous, transitions_from(runs, previous)) == plain(),
    decreases runs.len(),
{
    lemma_change_is_invertible(previous, plain());
    if runs.len() > 0 {
        let next = runs[0].1;
        lemma_change_is_invertible(previous, next);
        lemma_apply_codes_concat(
            previous,
            change_plan(previous, next),
            transitions_from(runs.drop_first(), next),
        );
        lemma_transitions_close_from(runs.drop_first(), next);
    }
}

/// The codes in the rendered output of `runs` are `transitions_from(runs, plain())`,
/// and replaying them from no style ends in no style: nothing is left switched on.
pub proof fn lemma_render_leaves_no_style(runs: Runs)
    ensures
        render_runs(without_text(runs)) == codes_text(transitions_from(runs, plain())),
        apply_codes(plain(), transitions_from(runs, plain())) == plain(),
{
    lemma_render_codes_are_transitions(runs, plain());
    lemma_transitions_close_from(runs, plain());
}

proof fn lemma_emit_nonempty(runs: Runs, s: Seq<char>, f: Format)
    requires
        forall|k: int| 0 <= k < runs.len() ==> #[trigger] runs[k].0.len() > 0,
    ensures
        forall|k: int| 0 <= k < emit(runs, s, f).len() ==> #[trigger] emit(runs, s, f)[k].0.len() > 0,
{
    assert forall|k: int| 0 <= k < emit(runs, s, f).len() implies #[trigger] emit(runs, s, f)[k].0.len() > 0 by {
        if k < runs.len() {
            assert(runs[k].0.len() > 0);
        }
    }
}

proof fn lemma_scan_from_nonempty(text: Seq<char>, i: int, start: int, f: Format, runs: Runs)
    requires
        0 <= start <= i <= text.len(),
        forall|k: int| 0 <= k < runs.len() ==> #[trigger] runs[k].0.len() > 0,
    ensures
        forall|k: int|
            0 <= k < scan_from(text, i, start, f, runs).len() ==> #[trigger] scan_from(
                text,
                i,
                start,
                f,
                runs,
            )[k].0.len() > 0,
    decreases text.len() - i,
{
    if i < text.len() {
        let pending = text.subrange(start, i);
        lemma_emit_nonempty(runs, pending, f);
        lemma_emit_nonempty(runs, pending.push(' '), f);
        let (ni, ns, nf, nr) = step(text, i, start, f, runs);
        lemma_scan_from_nonempty(text, ni, ns, nf, nr);
        assert(ni > i);
        assert(scan_from(text, i, start, f, runs) == scan_from(text, ni, ns, nf, nr));
    } else {
        lemma_emit_nonempty(runs, text.subrange(start, text.len() as int), f);
        assert(scan_from(text, i, start, f, runs) == emit(runs, text.subrange(start, text.len() as int), f));
    }
}

/// No run that the scanner produces has empty text.
pub proof fn lemma_scan_runs_nonempty(text: Seq<char>)
    ensures
        forall|k: int| 0 <= k < scan(text).len() ==> #[trigger] scan(text)[k].0.len() > 0,
{
    lemma_scan_from_nonempty(text, 0, 0, plain(), Seq::empty());
}

/// Relies on `String::push`: the character is appended at the end.
#[verifier::external_body]
fn push_char(s: &mut String, c: char)
    ensures
        final(s)@ == old(s)@.push(c),
{
    s.push(c);
}

/// The characters of `text`, in order.
pub(crate) fn chars_of(text: &str) -> (r: Vec<char>)
    ensures
        r@ == text@,
{
    let mut v: Vec<char> = Vec::new();
    for c in it: text.chars()
        invariant
            v@ == it.seq().take(it.index() as int),
    {
        v.push(c);
    }
    assert(v@ =~= text@);
    v
}

/// A new string holding `chars[from..to]`.
fn slice_string(chars: &Vec<char>, from: usize, to: usize) -> (r: String)
    requires
        from <= to <= chars.len(),
    ensures
        r@ == chars@.subrange(from as int, to as int),
{
    let mut r = String::new();
    let mut k: usize = from;
    while k < to
        invariant
            from <= k <= to,
            to <= chars.len(),
            r@ == chars@.subrange(from as int, k as int),
        decreases to - k,
    {
        push_char(&mut r, chars[k]);
        k = k + 1;
        assert(r@ =~= chars@.subrange(from as int, k as int));
    }
    r
}

fn push_run(runs: &mut Vec<(String, Format)>, s: String, f: Format)
    ensures
        runs_view(final(runs)@) == runs_view(old(runs)@).push((s@, f)),
{
    let ghost before = runs@;
    runs.push((s, f));
    assert(runs_view(runs@) =~= runs_view(before).push((s@, f)));
}

/// The run list of the characters `text`.
pub(crate) fn scan_chars(text: &Vec<char>) -> (r: Vec<(String, Format)>)
    ensures
        runs_view(r@) == scan(text@),
{
    let n = text.len();
    let mut runs: Vec<(String, Format)> = Vec::new();
    let mut f = Format::new();
    let mut start: usize = 0;
    let mut i: usize = 0;
    assert(runs_view(runs@) =~= Seq::empty());
    while i < n
        invariant
            n == text.len(),
            start <= i <= n,
            scan_from(text@, i as int, start as int, f, runs_view(runs@)) == scan(text@),
        decreases n - i,
    {
        let ghost (ni, ns, nf, nr) = step(text@, i as int, start as int, f, runs_view(runs@));
        let ghost before = scan_from(text@, i as int, start as int, f, runs_view(runs@));
        assert(before == scan_from(text@, ni, ns, nf, nr));
        let c = text[i];
        let doubled = i + 1 < n && text[i + 1] == c;
        if c == '\\' || c == '\n' || c == '*' || (c == '~' && doubled) {
            let mut pending = slice_string(text, start, i);
            if c == '\n' {
                push_char(&mut pending, ' ');
            }
            if start < i || c == '\n' {
                push_run(&mut runs, pending, f);
            }
            if c == '\\' {
                start = i + 1;
                if i + 1 < n {
                    i = i + 2;
                } else {
                    i = i + 1;
                }
            } else if c == '\n' {
                i = i + 1;
                start = i;
            } else if c == '*' && doubled {
                f.toggle_bold();
                i = i + 2;
                start = i;
            } else if c == '*' {
                f.toggle_italic();
                i = i + 1;
                start = i;
            } else {
                f.toggle_strikethrough();
                i = i + 2;
                start = i;
            }
        } else {
            i = i + 1;
        }
        assert(runs_view(runs@) == nr);
    }
    if start < n {
        let last = slice_string(text, start, n);
        push_run(&mut runs, last, f);
    }
    runs
}

impl Paragraph {
    /// Scans `text` into its styled runs.
    pub fn new(text: &str) -> (r: Self)
        ensures
            runs_view(r.render_slices@) == scan(text@),
            forall|k: int| 0 <= k < r.render_slices.len() ==> (#[trigger] r.render_slices@[k]).0@.len() > 0,
    {
        let chars = chars_of(text);
        let r = Paragraph { render_slices: scan_chars(&chars) };
        proof {
            lemma_scan_runs_nonempty(text@);
            assert forall|k: int| 0 <= k < r.render_slices.len() implies (#[trigger] r.render_slices@[k]).0@.len() > 0 by {
                assert(scan(text@)[k].0.len() > 0);
                assert(runs_view(r.render_slices@)[k] == (r.render_slices@[k].0@, r.render_slices@[k].1));
            }
        }
        r
    }
}

impl DocumentElement for Paragraph {
    open spec fn rendered(&self) -> Seq<char> {
        render_runs(runs_view(self.render_slices@))
    }

    fn render(&self) -> (r: String) {
        let ghost rv = runs_view(self.render_slices@);
        let n = self.render_slices.len();
        let mut out = String::new();
        let mut previous = Format::new();
        let mut k: usize = 0;
        assert(rv.skip(0) =~= rv);
        assert(out@ + render_from(rv.skip(0), previous) =~= render_runs(rv));
        while k < n
            invariant
                n == self.render_slices.len(),
                rv == runs_view(self.render_slices@),
                k <= n,
                out@ + render_from(rv.skip(k as int), previous) == render_runs(rv),
            decreases n - k,
        {
            let run = &self.render_slices[k];
            let format = run.1;
            let codes = format.get_codes_for_format_change(previous);
            let ghost rest = rv.skip(k as int);
            assert(rest[0] == (run.0@, format));
            assert(rest.drop_first() =~= rv.skip(k + 1));
            let ghost before = out@;
            out.append(codes.as_str());
            out.append(run.0.as_str());
            assert(before + render_from(rest, previous) =~= out@ + render_from(
                rv.skip(k + 1),
                format,
            ));
            previous = format;
            k = k + 1;
        }
        let closing = Format::new().get_codes_for_format_change(previous);
        assert(rv.skip(k as int).len() == 0);
        out.append(closing.as_str());
        out
    }
}

} // verus!
