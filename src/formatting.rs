use vstd::prelude::*;

verus! {

/// One of the independent style attributes, in the canonical order in which
/// their codes are emitted.
#[derive(Clone, Copy, Debug, PartialEq, Eq, Structural)]
pub enum Attribute {
    Bold,
    Italic,
    Strikethrough,
}

/// One terminal control code: switching a single attribute on or off.
pub ghost enum Code {
    Start(Attribute),
    End(Attribute),
}

/// The set of style attributes active at some point of the output.
#[derive(Clone, Copy, Debug, PartialEq, Eq, Structural)]
pub struct Format {
    pub bold: bool,
    pub italic: bool,
    pub strikethrough: bool,
}

/// The state with no attribute set.
pub open spec fn plain() -> Format {
    Format { bold: false, italic: false, strikethrough: false }
}

impl Format {
    pub open spec fn with(self, a: Attribute, on: bool) -> Format {
        match a {
            Attribute::Bold => Format { bold: on, ..self },
            Attribute::Italic => Format { italic: on, ..self },
            Attribute::Strikethrough => Format { strikethrough: on, ..self },
        }
    }

    /// The attributes of `self` that `other` lacks.
    pub open spec fn minus(self, other: Format) -> Format {
        Format {
            bold: self.bold && !other.bold,
            italic: self.italic && !other.italic,
            strikethrough: self.strikethrough && !other.strikethrough,
        }
    }
}

/// The characters of one control code (`ESC [ n m`).
pub open spec fn code_text(c: Code) -> Seq<char> {
    match c {
        Code::Start(Attribute::Bold) => seq!['\x1b', '[', '1', 'm'],
        Code::Start(Attribute::Italic) => seq!['\x1b', '[', '3', 'm'],
        Code::Start(Attribute::Strikethrough) => seq!['\x1b', '[', '9', 'm'],
        Code::End(Attribute::Bold) => seq!['\x1b', '[', '2', '2', 'm'],
        Code::End(Attribute::Italic) => seq!['\x1b', '[', '2', '3', 'm'],
        Code::End(Attribute::Strikethrough) => seq!['\x1b', '[', '2', '9', 'm'],
    }
}

/// The text of a sequence of codes, written one after the other.
pub open spec fn codes_text(cs: Seq<Code>) -> Seq<char>
    decreases cs.len(),
{
    if cs.len() == 0 {
        Seq::empty()
    } else {
        codes_text(cs.drop_last()) + code_text(cs.last())
    }
}

/// The style that a terminal in style `f` is in after reading code `c`.
pub open spec fn apply_code(f: Format, c: Code) -> Format {
    match c {
        Code::Start(a) => f.with(a, true),
        Code::End(a) => f.with(a, false),
    }
}

/// The style after reading the codes `cs`, in order, starting from `f`.
pub open spec fn apply_codes(f: Format, cs: Seq<Code>) -> Format
    decreases cs.len(),
{
    if cs.len() == 0 {
        f
    } else {
        apply_code(apply_codes(f, cs.drop_last()), cs.last())
    }
}

/// `c` alone when `on` holds, else nothing.
pub open spec fn code_if(on: bool, c: Code) -> Seq<Code> {
    if on {
        seq![c]
    } else {
        Seq::empty()
    }
}

/// The start codes of the attributes of `f`, in canonical order.
pub open spec fn start_plan(f: Format) -> Seq<Code> {
    code_if(f.bold, Code::Start(Attribute::Bold)) + code_if(
        f.italic,
        Code::Start(Attribute::Italic),
    ) + code_if(f.strikethrough, Code::Start(Attribute::Strikethrough))
}

/// The end codes of the attributes of `f`, in canonical order.
pub open spec fn end_plan(f: Format) -> Seq<Code> {
    code_if(f.bold, Code::End(Attribute::Bold)) + code_if(f.italic, Code::End(Attribute::Italic))
        + code_if(f.strikethrough, Code::End(Attribute::Strikethrough))
}

/// The codes that move the terminal from `previous` to `current`: the end codes
/// of what was discontinued, then the start codes of what is new.
pub open spec fn change_plan(previous: Format, current: Format) -> Seq<Code> {
    end_plan(previous.minus(current)) + start_plan(current.minus(previous))
}

pub proof fn lemma_codes_text_concat(a: Seq<Code>, b: Seq<Code>)
    ensures
        codes_text(a + b) == codes_text(a) + codes_text(b),
    decreases b.len(),
{
    if b.len() == 0 {
        assert(a + b =~= a);
        assert(codes_text(b) =~= Seq::<char>::empty());
        assert(codes_text(a) + codes_text(b) =~= codes_text(a));
    } else {
        assert((a + b).drop_last() =~= a + b.drop_last());
        assert((a + b).last() == b.last());
        lemma_codes_text_concat(a, b.drop_last());
        assert(codes_text(a + b) =~= codes_text(a) + codes_text(b));
    }
}

pub proof fn lemma_apply_codes_concat(f: Format, a: Seq<Code>, b: Seq<Code>)
    ensures
        apply_codes(f, a + b) == apply_codes(apply_codes(f, a), b),
    decreases b.len(),
{
    if b.len() == 0 {
        assert(a + b =~= a);
    } else {
        assert((a + b).drop_last() =~= a + b.drop_last());
        assert((a + b).last() == b.last());
        lemma_apply_codes_concat(f, a, b.drop_last());
    }
}

proof fn lemma_apply_code_if(f: Format, on: bool, c: Code)
    ensures
        apply_codes(f, code_if(on, c)) == (if on {
            apply_code(f, c)
        } else {
            f
        }),
{
    if on {
        let s = seq![c];
        assert(s.drop_last() =~= Seq::<Code>::empty());
        assert(s.last() == c);
        assert(apply_codes(f, s) == apply_code(apply_codes(f, s.drop_last()), s.last()));
    }
}

proof fn lemma_apply_three(f: Format, x: Seq<Code>, y: Seq<Code>, z: Seq<Code>)
    ensures
        apply_codes(f, x + y + z) == apply_codes(apply_codes(apply_codes(f, x), y), z),
{
    lemma_apply_codes_concat(f, x + y, z);
    lemma_apply_codes_concat(f, x, y);
}

/// Reading the end codes of `g` switches exactly the attributes of `g` off.
pub proof fn lemma_apply_end_plan(f: Format, g: Format)
    ensures
        apply_codes(f, end_plan(g)) == f.minus(g),
{
    let b = code_if(g.bold, Code::End(Attribute::Bold));
    let i = code_if(g.italic, Code::End(Attribute::Italic));
    let s = code_if(g.strikethrough, Code::End(Attribute::Strikethrough));
    lemma_apply_three(f, b, i, s);
    lemma_apply_code_if(f, g.bold, Code::End(Attribute::Bold));
    let f1 = apply_codes(f, b);
    lemma_apply_code_if(f1, g.italic, Code::End(Attribute::Italic));
    let f2 = apply_codes(f1, i);
    lemma_apply_code_if(f2, g.strikethrough, Code::End(Attribute::Strikethrough));
}

/// Reading the start codes of `g` switches exactly the attributes of `g` on.
pub proof fn lemma_apply_start_plan(f: Format, g: Format)
    ensures
        apply_codes(f, start_plan(g)) == (Format {
            bold: f.bold || g.bold,
            italic: f.italic || g.italic,
            strikethrough: f.strikethrough || g.strikethrough,
        }),
{
    let b = code_if(g.bold, Code::Start(Attribute::Bold));
    let i = code_if(g.italic, Code::Start(Attribute::Italic));
    let s = code_if(g.strikethrough, Code::Start(Attribute::Strikethrough));
    lemma_apply_three(f, b, i, s);
    lemma_apply_code_if(f, g.bold, Code::Start(Attribute::Bold));
    let f1 = apply_codes(f, b);
    lemma_apply_code_if(f1, g.italic, Code::Start(Attribute::Italic));
    let f2 = apply_codes(f1, i);
    lemma_apply_code_if(f2, g.strikethrough, Code::Start(Attribute::Strikethrough));
}

/// A terminal in style `a` that reads the change codes from `a` to `b` ends up
/// in style `b`, and the change codes from `b` back to `a` restore `a`.
pub proof fn lemma_change_is_invertible(a: Format, b: Format)
    ensures
        apply_codes(a, change_plan(a, b)) == b,
        apply_codes(b, change_plan(b, a)) == a,
{
    lemma_apply_codes_concat(a, end_plan(a.minus(b)), start_plan(b.minus(a)));
    lemma_apply_end_plan(a, a.minus(b));
    lemma_apply_start_plan(a.minus(a.minus(b)), b.minus(a));
    lemma_apply_codes_concat(b, end_plan(b.minus(a)), start_plan(a.minus(b)));
    lemma_apply_end_plan(b, b.minus(a));
    lemma_apply_start_plan(b.minus(b.minus(a)), a.minus(b));
}

/// Changing from a style to itself takes no code at all.
pub proof fn lemma_no_change_is_empty(s: Format)
    ensures
        change_plan(s, s) == Seq::<Code>::empty(),
        codes_text(change_plan(s, s)) == Seq::<char>::empty(),
{
    assert(change_plan(s, s) =~= Seq::<Code>::empty());
}

proof fn lemma_codes_text_push(cs: Seq<Code>, c: Code)
    ensures
        codes_text(cs.push(c)) == codes_text(cs) + code_text(c),
{
    assert(cs.push(c).drop_last() =~= cs);
    assert(cs.push(c).last() == c);
}

/// Appends the start code (`start`) or the end code of `a` to `codes`.
fn append_code(codes: &mut String, a: Attribute, start: bool)
    ensures
        final(codes)@ == old(codes)@ + code_text(
            if start {
                Code::Start(a)
            } else {
                Code::End(a)
            },
        ),
{
    let lit: &str = match (a, start) {
        (Attribute::Bold, true) => "\x1b[1m",
        (Attribute::Italic, true) => "\x1b[3m",
        (Attribute::Strikethrough, true) => "\x1b[9m",
        (Attribute::Bold, false) => "\x1b[22m",
        (Attribute::Italic, false) => "\x1b[23m",
        (Attribute::Strikethrough, false) => "\x1b[29m",
    };
    proof {
        reveal_strlit("\x1b[1m");
        reveal_strlit("\x1b[3m");
        reveal_strlit("\x1b[9m");
        reveal_strlit("\x1b[22m");
        reveal_strlit("\x1b[23m");
        reveal_strlit("\x1b[29m");
    }
    assert(lit@ =~= code_text(
        if start {
            Code::Start(a)
        } else {
            Code::End(a)
        },
    ));
    codes.append(lit);
}

impl Format {
    /// The style with no attribute set.
    pub fn new() -> (r: Self)
        ensures
            r == plain(),
    {
        Format { bold: false, italic: false, strikethrough: false }
    }

    fn without(self, other: Self) -> (r: Self)
        ensures
            r == self.minus(other),
    {
        Format {
            bold: self.bold && !other.bold,
            italic: self.italic && !other.italic,
            strikethrough: self.strikethrough && !other.strikethrough,
        }
    }

    /// The codes that bring the terminal from `previous_format` to `self`: the end
    /// codes of every discontinued attribute, then the start codes of every new one,
    /// each group in canonical order.
    pub fn get_codes_for_format_change(self, previous_format: Self) -> (r: String)
        ensures
            r@ == codes_text(change_plan(previous_format, self)),
    {
        let new_format = self.without(previous_format);
        let discontinued_format = previous_format.without(self);
        let mut codes = discontinued_format.get_end_codes();
        let start = new_format.get_start_codes();
        codes.append(start.as_str());
        proof {
            lemma_codes_text_concat(end_plan(discontinued_format), start_plan(new_format));
        }
        codes
    }

    pub fn toggle_bold(&mut self)
        ensures
            *final(self) == old(self).with(Attribute::Bold, !old(self).bold),
    {
        self.bold = !self.bold;
    }

    pub fn toggle_italic(&mut self)
        ensures
            *final(self) == old(self).with(Attribute::Italic, !old(self).italic),
    {
        self.italic = !self.italic;
    }

    pub fn toggle_strikethrough(&mut self)
        ensures
            *final(self) == old(self).with(Attribute::Strikethrough, !old(self).strikethrough),
    {
        self.strikethrough = !self.strikethrough;
    }

    /// The start codes of the attributes of `self`, in canonical order.
    pub fn get_start_codes(self) -> (r: String)
        ensures
            r@ == codes_text(start_plan(self)),
    {
        self.codes(true)
    }

    /// The end codes of the attributes of `self`, in canonical order.
    pub fn get_end_codes(self) -> (r: String)
        ensures
            r@ == codes_text(end_plan(self)),
    {
        self.codes(false)
    }

    fn codes(self, start: bool) -> (r: String)
        ensures
            r@ == codes_text(
                if start {
                    start_plan(self)
                } else {
                    end_plan(self)
                },
            ),
    {
        let mut codes = String::new();
        let ghost mut plan: Seq<Code> = Seq::empty();
        let ghost code = |a: Attribute|
            if start {
                Code::Start(a)
            } else {
                Code::End(a)
            };
        assert(codes@ =~= codes_text(plan));
        if self.bold {
            append_code(&mut codes, Attribute::Bold, start);
            proof {
                lemma_codes_text_push(plan, code(Attribute::Bold));
                plan = plan.push(code(Attribute::Bold));
            }
        }
        if self.italic {
            append_code(&mut codes, Attribute::Italic, start);
            proof {
                lemma_codes_text_push(plan, code(Attribute::Italic));
                plan = plan.push(code(Attribute::Italic));
            }
        }
        if self.strikethrough {
            append_code(&mut codes, Attribute::Strikethrough, start);
            proof {
                lemma_codes_text_push(plan, code(Attribute::Strikethrough));
                plan = plan.push(code(Attribute::Strikethrough));
            }
        }
        assert(plan =~= (if start {
            start_plan(self)
        } else {
            end_plan(self)
        }));
        codes
    }

    pub fn set_bold(self) -> (r: Self)
        ensures
            r == self.with(Attribute::Bold, true),
    {
        Format { bold: true, ..self }
    }

    pub fn set_italic(self) -> (r: Self)
        ensures
            r == self.with(Attribute::Italic, true),
    {
        Format { italic: true, ..self }
    }

    pub fn set_strikethrough(self) -> (r: Self)
        ensures
            r == self.with(Attribute::Strikethrough, true),
    {
        Format { strikethrough: true, ..self }
    }
}

} // verus!
