//! Pen state of the terminal and the SGR (Select Graphic Rendition)
//! parameters that change it.
use vstd::prelude::*;
use vstd::slice::slice_subrange;

verus! {

/// One of the symbolic foreground colors. `White` doubles as the default.
#[derive(PartialEq, Eq, Structural, Clone, Copy, Debug)]
pub enum Color {
    White,
    Black,
    Red,
    Green,
    Yellow,
    Blue,
    Magenta,
    Cyan,
    Grey,
    BrightRed,
    BrightGreen,
    BrightYellow,
    BrightBlue,
    BrightMagenta,
    BrightCyan,
}

/// The style applied to newly emitted text.
#[derive(PartialEq, Eq, Structural, Clone, Copy, Debug)]
pub struct FormatState {
    pub color: Color,
    pub underline: bool,
}

pub const ESC: u8 = 0x1b;

pub const LF: u8 = 0x0a;

pub const CR: u8 = 0x0d;

/// The pen after a reset: default color, no underline.
pub open spec fn default_format() -> FormatState {
    FormatState { color: Color::White, underline: false }
}

/// The color that an SGR code selects, if it selects one.
pub open spec fn code_color(code: nat) -> Option<Color> {
    if code == 30 {
        Some(Color::Black)
    } else if code == 31 {
        Some(Color::Red)
    } else if code == 32 {
        Some(Color::Green)
    } else if code == 33 {
        Some(Color::Yellow)
    } else if code == 34 {
        Some(Color::Blue)
    } else if code == 35 {
        Some(Color::Magenta)
    } else if code == 36 {
        Some(Color::Cyan)
    } else if code == 37 {
        Some(Color::White)
    } else if code == 90 {
        Some(Color::Grey)
    } else if code == 91 {
        Some(Color::BrightRed)
    } else if code == 92 {
        Some(Color::BrightGreen)
    } else if code == 93 {
        Some(Color::BrightYellow)
    } else if code == 94 {
        Some(Color::BrightBlue)
    } else if code == 95 {
        Some(Color::BrightMagenta)
    } else if code == 96 {
        Some(Color::BrightCyan)
    } else if code == 97 {
        Some(Color::White)
    } else {
        None
    }
}

/// What one numeric SGR code does to the pen: `0` resets, a color code sets
/// the foreground, any other code leaves the pen alone.
pub open spec fn code_effect(f: FormatState, code: nat) -> FormatState {
    if code == 0 {
        default_format()
    } else {
        match code_color(code) {
            Some(c) => FormatState { color: c, ..f },
            None => f,
        }
    }
}

pub open spec fn is_digit(b: u8) -> bool {
    0x30 <= b <= 0x39
}

pub open spec fn is_alpha(b: u8) -> bool {
    (0x41 <= b <= 0x5a) || (0x61 <= b <= 0x7a)
}

/// Decimal value of a string of digits.
pub open spec fn digits_value(s: Seq<u8>) -> nat
    decreases s.len(),
{
    if s.len() == 0 {
        0
    } else {
        digits_value(s.drop_last()) * 10 + (s.last() - 0x30) as nat
    }
}

pub open spec fn all_digits(s: Seq<u8>) -> bool {
    s.len() > 0 && forall|i: int| 0 <= i < s.len() ==> is_digit(#[trigger] s[i])
}

/// A field without its optional leading `+`.
pub open spec fn field_digits(s: Seq<u8>) -> Seq<u8> {
    if s.len() > 0 && s[0] == 0x2b {
        s.skip(1)
    } else {
        s
    }
}

/// The unsigned 32-bit number a parameter field spells: an optional `+`,
/// then one or more decimal digits, with a value that fits in 32 bits.
pub open spec fn field_code(s: Seq<u8>) -> Option<nat> {
    let d = field_digits(s);
    if all_digits(d) && digits_value(d) <= u32::MAX {
        Some(digits_value(d))
    } else {
        None
    }
}

/// Applies one field; a field that is not a number is ignored.
pub open spec fn field_effect(f: FormatState, s: Seq<u8>) -> FormatState {
    match field_code(s) {
        Some(c) => code_effect(f, c),
        None => f,
    }
}

/// The fields of a parameter block, split on `;`.
pub open spec fn split_fields(s: Seq<u8>) -> Seq<Seq<u8>>
    decreases s.len(),
{
    if s.len() == 0 {
        seq![Seq::empty()]
    } else {
        let init = split_fields(s.drop_last());
        if s.last() == 0x3b {
            init.push(Seq::empty())
        } else {
            init.update(init.len() - 1, init.last().push(s.last()))
        }
    }
}

/// Applies the fields left to right.
pub open spec fn fields_effect(f: FormatState, fields: Seq<Seq<u8>>) -> FormatState
    decreases fields.len(),
{
    if fields.len() == 0 {
        f
    } else {
        field_effect(fields_effect(f, fields.drop_last()), fields.last())
    }
}

/// What a parameter block (the bytes between `[` and `m`) does to the pen.
pub open spec fn params_effect(f: FormatState, params: Seq<u8>) -> FormatState {
    fields_effect(f, split_fields(params))
}

/// `k` is the position of the first `[` in `s`.
pub open spec fn first_bracket_at(s: Seq<u8>, k: int) -> bool {
    0 <= k < s.len() && s[k] == 0x5b && forall|j: int| 0 <= j < k ==> s[j] != 0x5b
}

/// What a terminated escape sequence `s` (its final letter included) does
/// to the pen. Only a sequence that ends in `m` and holds a `[` is
/// interpreted; every other sequence is discarded without effect.
pub open spec fn sequence_effect(f: FormatState, s: Seq<u8>) -> FormatState {
    if s.len() > 0 && s.last() == 0x6d && exists|k: int| first_bracket_at(s, k) {
        let k = choose|k: int| first_bracket_at(s, k);
        params_effect(f, s.subrange(k + 1, s.len() - 1))
    } else {
        f
    }
}

proof fn lemma_digits_value_grows(s: Seq<u8>, i: int)
    requires
        0 <= i <= s.len(),
        forall|j: int| 0 <= j < s.len() ==> is_digit(#[trigger] s[j]),
    ensures
        digits_value(s.take(i)) <= digits_value(s),
    decreases s.len() - i,
{
    if i < s.len() {
        lemma_digits_value_grows(s, i + 1);
        assert(s.take(i + 1).drop_last() =~= s.take(i));
    } else {
        assert(s.take(i) =~= s);
    }
}

/// The reset sequence `ESC [ 0 m`, after bytes that hold no `[`, restores
/// the default pen.
pub(crate) proof fn lemma_reset_sequence(f: FormatState, p: Seq<u8>)
    requires
        forall|j: int| 0 <= j < p.len() ==> p[j] != 0x5b,
    ensures
        sequence_effect(f, p + seq![ESC, 0x5b, 0x30, 0x6d]) == default_format(),
{
    let s = p + seq![ESC, 0x5b, 0x30, 0x6d];
    let k = p.len() as int + 1;
    assert(s[k] == 0x5b);
    assert(first_bracket_at(s, k));
    let c = choose|c: int| first_bracket_at(s, c);
    assert(c == k) by {
        if c < k {
            assert(s[c] != 0x5b);
        } else if c > k {
            assert(s[k] != 0x5b);
        }
    }
    let zero = seq![0x30u8];
    assert(s.subrange(k + 1, s.len() - 1) =~= zero);
    assert(zero.drop_last() =~= Seq::<u8>::empty());
    assert(split_fields(Seq::<u8>::empty()) == seq![Seq::<u8>::empty()]);
    assert(Seq::<u8>::empty().push(0x30u8) =~= zero);
    assert(split_fields(zero) =~= seq![zero]);
    assert(seq![zero].drop_last() =~= Seq::<Seq<u8>>::empty());
    assert(field_digits(zero) == zero);
    assert(all_digits(zero));
    assert(digits_value(zero) == 0) by {
        assert(digits_value(zero) == digits_value(zero.drop_last()) * 10 + (zero.last() - 0x30) as nat);
    }
    assert(field_code(zero) == Some(0nat));
    assert(fields_effect(f, seq![zero]) == field_effect(f, zero));
}

proof fn lemma_split_fields_nonempty(s: Seq<u8>)
    ensures
        split_fields(s).len() >= 1,
    decreases s.len(),
{
    if s.len() > 0 {
        lemma_split_fields_nonempty(s.drop_last());
    }
}

impl FormatState {
    /// The pen a session starts with, and the one a reset restores.
    pub fn new() -> (r: FormatState)
        ensures
            r == default_format(),
    {
        FormatState { color: Color::White, underline: false }
    }

    /// Applies one numeric SGR code.
    pub fn apply_code(&mut self, code: u32)
        ensures
            *final(self) == code_effect(*old(self), code as nat),
    {
        if code == 0 {
            self.color = Color::White;
            self.underline = false;
        } else {
            let c = match code {
                30 => Some(Color::Black),
                31 => Some(Color::Red),
                32 => Some(Color::Green),
                33 => Some(Color::Yellow),
                34 => Some(Color::Blue),
                35 => Some(Color::Magenta),
                36 => Some(Color::Cyan),
                37 => Some(Color::White),
                90 => Some(Color::Grey),
                91 => Some(Color::BrightRed),
                92 => Some(Color::BrightGreen),
                93 => Some(Color::BrightYellow),
                94 => Some(Color::BrightBlue),
                95 => Some(Color::BrightMagenta),
                96 => Some(Color::BrightCyan),
                97 => Some(Color::White),
                _ => None,
            };
            if let Some(c) = c {
                self.color = c;
            }
        }
    }

    /// Applies one parameter field; a field that is no number is ignored.
    pub fn apply_field(&mut self, field: &[u8])
        ensures
            *final(self) == field_effect(*old(self), field@),
    {
        if let Some(code) = parse_field(field) {
            self.apply_code(code);
        }
    }

    /// Applies an SGR parameter block: its `;`-separated fields, left to
    /// right.
    pub fn apply_params(&mut self, params: &[u8])
        ensures
            *final(self) == params_effect(*old(self), params@),
    {
        let ghost f0 = *self;
        let mut field: Vec<u8> = Vec::new();
        let mut i: usize = 0;
        proof {
            assert(params@.take(0) =~= Seq::<u8>::empty());
            lemma_split_fields_nonempty(params@.take(0));
        }
        while i < params.len()
            invariant
                i <= params@.len(),
                split_fields(params@.take(i as int)).len() >= 1,
                field@ == split_fields(params@.take(i as int)).last(),
                *self == fields_effect(f0, split_fields(params@.take(i as int)).drop_last()),
            decreases params.len() - i,
        {
            let b = params[i];
            let ghost prev = split_fields(params@.take(i as int));
            proof {
                assert(params@.take(i + 1).drop_last() =~= params@.take(i as int));
                assert(params@.take(i + 1).last() == b);
            }
            if b == 0x3b {
                self.apply_field(field.as_slice());
                field = Vec::new();
                proof {
                    assert(split_fields(params@.take(i + 1)) == prev.push(Seq::empty()));
                    assert(prev.push(Seq::<u8>::empty()).drop_last() =~= prev);
                    assert(prev =~= prev.drop_last().push(prev.last()));
                }
            } else {
                field.push(b);
                proof {
                    let next = prev.update(prev.len() - 1, prev.last().push(b));
                    assert(split_fields(params@.take(i + 1)) == next);
                    assert(next.drop_last() =~= prev.drop_last());
                }
            }
            i = i + 1;
        }
        proof {
            let all = split_fields(params@.take(i as int));
            assert(all =~= all.drop_last().push(all.last()));
        }
        self.apply_field(field.as_slice());
        proof {
            let all = split_fields(params@.take(i as int));
            assert(params@.take(i as int) =~= params@);
            assert(all.drop_last().push(all.last()).drop_last() =~= all.drop_last());
        }
    }

    /// Interprets a terminated escape sequence (its final letter included):
    /// an SGR sequence, one that ends in `m`, applies the parameters after
    /// its first `[`; every other sequence leaves the pen as it was.
    pub fn apply_sequence(&mut self, s: &[u8])
        ensures
            *final(self) == sequence_effect(*old(self), s@),
    {
        let n = s.len();
        if n == 0 || s[n - 1] != 0x6d {
            return;
        }
        let mut k: usize = 0;
        while k < n && s[k] != 0x5b
            invariant
                k <= n,
                n == s@.len(),
                forall|j: int| 0 <= j < k ==> s@[j] != 0x5b,
            decreases n - k,
        {
            k = k + 1;
        }
        if k == n {
            return;
        }
        proof {
            assert(first_bracket_at(s@, k as int));
            let c = choose|c: int| first_bracket_at(s@, c);
            assert(c == k) by {
                if c < k {
                    assert(s@[c] != 0x5b);
                } else if c > k {
                    assert(s@[k as int] != 0x5b);
                }
            }
        }
        let params = slice_subrange(s, k + 1, n - 1);
        self.apply_params(params);
    }
}

/// Reads one parameter field as an unsigned 32-bit number.
pub fn parse_field(s: &[u8]) -> (r: Option<u32>)
    ensures
        r matches Some(v) ==> field_code(s@) == Some(v as nat),
        r is None ==> field_code(s@) is None,
{
    let start: usize = if s.len() > 0 && s[0] == 0x2b { 1 } else { 0 };
    let ghost d = field_digits(s@);
    assert(d =~= s@.subrange(start as int, s@.len() as int));
    if start == s.len() {
        return None;
    }
    let mut acc: u64 = 0;
    let mut i: usize = start;
    while i < s.len()
        invariant
            start <= i <= s.len(),
            d == field_digits(s@),
            d =~= s@.subrange(start as int, s@.len() as int),
            forall|j: int| start <= j < i ==> is_digit(#[trigger] s@[j]),
            acc as nat == digits_value(d.take(i - start)),
            acc <= u32::MAX,
        decreases s.len() - i,
    {
        let b = s[i];
        if b < 0x30 || b > 0x39 {
            assert(!is_digit(d[i - start]));
            assert(!all_digits(d));
            return None;
        }
        assert(d.take(i + 1 - start).drop_last() =~= d.take(i - start));
        assert(d.take(i + 1 - start).last() == b);
        acc = acc * 10 + (b - 0x30) as u64;
        if acc > 0xffff_ffff {
            proof {
                if all_digits(d) {
                    lemma_digits_value_grows(d, (i + 1 - start) as int);
                }
            }
            return None;
        }
        i = i + 1;
    }
    assert(d.take(i - start) =~= d);
    Some(acc as u32)
}

} // verus!
