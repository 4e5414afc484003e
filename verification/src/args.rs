//! What the command line asks for, as plain values, and the reading of a
//! coordinate pair from text.
use crate::quad::{default_min_size, spec_default_min_size};
use crate::utils::{Rgba, Vec2};
use vstd::prelude::*;
use vstd::string::StringExecFns;

verus! {

/// How a quad is split.
#[derive(Copy, Clone, PartialEq, Eq, Debug, Structural)]
pub struct QuadArgs {
    /// Minimum number of iterations that will always be performed
    pub min_depth: u8,
    /// Minimum allowed size of a quad
    pub min_quad_size: Vec2,
    /// Maximum color difference between quadrants
    pub threshold: Option<Rgba>,
}

/// How the quads are drawn.
#[derive(Copy, Clone, PartialEq, Eq, Debug, Structural)]
pub struct DrawingArgs {
    /// Color of the lines defining the quads
    pub color: Option<Rgba>,
    /// When a new image is drawn this will be the default background color
    pub background: Option<Rgba>,
    /// Create the output without drawing over a copy of the input
    pub no_drawover: bool,
    /// Fill the quads with the relative average color value
    pub fill: bool,
}

/// Compression level of the output image.
#[derive(Copy, Clone, PartialEq, Eq, Debug, Structural)]
pub enum ImgCompression {
    /// Maximum compression
    Max,
    /// Optimize for size
    High,
    /// Default settings
    Default,
    /// Optimize for quality
    Low,
    /// No compression
    No,
}

/// How hard a PNG file is compressed.
#[derive(Copy, Clone, PartialEq, Eq, Debug, Structural)]
pub enum PngCompression {
    Best,
    Default,
    Fast,
}

impl ImgCompression {
    /// The quality with which a JPEG file is written, from 10 for the most
    /// compression to 100 for none.
    pub open spec fn spec_jpeg_quality(self) -> u8 {
        match self {
            ImgCompression::Max => 10,
            ImgCompression::High => 40,
            ImgCompression::Default => 70,
            ImgCompression::Low => 82,
            ImgCompression::No => 100,
        }
    }

    /// How hard a PNG file is compressed.
    pub open spec fn spec_png_compression(self) -> PngCompression {
        match self {
            ImgCompression::Max => PngCompression::Best,
            ImgCompression::High => PngCompression::Best,
            ImgCompression::Default => PngCompression::Default,
            ImgCompression::Low => PngCompression::Fast,
            ImgCompression::No => PngCompression::Fast,
        }
    }

    /// The quality with which a JPEG file is written.
    #[verifier::when_used_as_spec(spec_jpeg_quality)]
    pub fn jpeg_quality(self) -> (q: u8)
        ensures
            q == self.spec_jpeg_quality(),
    {
        match self {
            ImgCompression::Max => 10,
            ImgCompression::High => 40,
            ImgCompression::Default => 70,
            ImgCompression::Low => 82,
            ImgCompression::No => 100,
        }
    }

    /// How hard a PNG file is compressed.
    #[verifier::when_used_as_spec(spec_png_compression)]
    pub fn png_compression(self) -> (c: PngCompression)
        ensures
            c == self.spec_png_compression(),
    {
        match self {
            ImgCompression::Max => PngCompression::Best,
            ImgCompression::High => PngCompression::Best,
            ImgCompression::Default => PngCompression::Default,
            ImgCompression::Low => PngCompression::Fast,
            ImgCompression::No => PngCompression::Fast,
        }
    }
}

/// Why input and output do not go together.
#[derive(Copy, Clone, PartialEq, Eq, Debug, Structural)]
pub enum RankError {
    /// input is a directory but output isn't
    OutputIsNoDirectory,
    /// input is a file, but output is a directory
    OutputIsDirectory,
}

/// Whether one image is asked for (0) or a directory of images (`u8::MAX`).
/// Input and output must both be directories or both be none.
pub fn check_rank(input_is_dir: bool, output_is_dir: bool) -> (r: Result<u8, RankError>)
    ensures
        r == if input_is_dir {
            if output_is_dir {
                Ok::<u8, RankError>(u8::MAX)
            } else {
                Err(RankError::OutputIsNoDirectory)
            }
        } else {
            if output_is_dir {
                Err(RankError::OutputIsDirectory)
            } else {
                Ok(0u8)
            }
        },
{
    if input_is_dir {
        if !output_is_dir {
            return Err(RankError::OutputIsNoDirectory);
        }
        Ok(u8::MAX)
    } else {
        if output_is_dir {
            return Err(RankError::OutputIsDirectory);
        }
        Ok(0)
    }
}

/// The decimal digit `d` as a character.
pub open spec fn digit_char(d: nat) -> char {
    if d == 0 {
        '0'
    } else if d == 1 {
        '1'
    } else if d == 2 {
        '2'
    } else if d == 3 {
        '3'
    } else if d == 4 {
        '4'
    } else if d == 5 {
        '5'
    } else if d == 6 {
        '6'
    } else if d == 7 {
        '7'
    } else if d == 8 {
        '8'
    } else {
        '9'
    }
}

/// `n` in decimal digits, without leading zeros.
pub open spec fn decimal(n: nat) -> Seq<char>
    decreases n,
{
    if n < 10 {
        seq![digit_char(n)]
    } else {
        decimal(n / 10) + seq![digit_char(n % 10)]
    }
}

fn digit_str(d: u32) -> (s: &'static str)
    requires
        d < 10,
    ensures
        s@ == seq![digit_char(d as nat)],
{
    proof {
        reveal_strlit("0");
        reveal_strlit("1");
        reveal_strlit("2");
        reveal_strlit("3");
        reveal_strlit("4");
        reveal_strlit("5");
        reveal_strlit("6");
        reveal_strlit("7");
        reveal_strlit("8");
        reveal_strlit("9");
    }
    let s = if d == 0 {
        "0"
    } else if d == 1 {
        "1"
    } else if d == 2 {
        "2"
    } else if d == 3 {
        "3"
    } else if d == 4 {
        "4"
    } else if d == 5 {
        "5"
    } else if d == 6 {
        "6"
    } else if d == 7 {
        "7"
    } else if d == 8 {
        "8"
    } else {
        "9"
    };
    assert(s@ =~= seq![digit_char(d as nat)]);
    s
}

/// Appends `n` in decimal digits to `out`.
pub fn push_decimal(out: &mut String, n: u32)
    ensures
        final(out)@ == old(out)@ + decimal(n as nat),
    decreases n,
{
    if n >= 10 {
        push_decimal(out, n / 10);
    }
    out.append(digit_str(n % 10));
}

/// The text of a coordinate pair: `(x,y)`.
pub open spec fn vec2_text(v: Vec2) -> Seq<char> {
    seq!['('] + decimal(v.x as nat) + seq![','] + decimal(v.y as nat) + seq![')']
}

impl Vec2 {
    /// The pair as text: `(x,y)`.
    pub fn to_string(&self) -> (s: String)
        ensures
            s@ == vec2_text(*self),
    {
        proof {
            reveal_strlit("(");
            reveal_strlit(",");
            reveal_strlit(")");
        }
        let mut s = String::from_str("(");
        assert(s@ =~= seq!['(']);
        push_decimal(&mut s, self.x);
        s.append(",");
        push_decimal(&mut s, self.y);
        s.append(")");
        assert(s@ =~= vec2_text(*self));
        s
    }
}

/// What is said of a text that holds no two fields.
pub const ERR_NOT_VEC2: &'static str = "not a vec2";

/// What is said of a field that is no number.
pub const ERR_NAN: &'static str = "not a valid number";

/// What is said of a size below the smallest quad size.
pub const ERR_QUAD_TOO_SMALL: &'static str = "min quad size is too small";

/// Whether `c` is an ASCII punctuation character: one of
/// `! " # $ % & ' ( ) * + , - . /`, `: ; < = > ? @`, `[ \ ] ^ _` and the
/// backtick, or `{ | } ~`.
pub open spec fn is_punct(c: char) -> bool {
    let n = c as u32;
    (0x21 <= n <= 0x2F) || (0x3A <= n <= 0x40) || (0x5B <= n <= 0x60) || (0x7B <= n <= 0x7E)
}

/// Whether `c` is one of the digits `0` to `9`.
pub open spec fn is_digit(c: char) -> bool {
    0x30 <= c as u32 <= 0x39
}

/// The fields of `s` that are complete, and the field that the end of `s`
/// lies in. A field is a longest run of characters that are no punctuation;
/// it is complete when punctuation follows.
pub open spec fn scan(s: Seq<char>) -> (Seq<Seq<char>>, Seq<char>)
    decreases s.len(),
{
    if s.len() == 0 {
        (Seq::empty(), Seq::empty())
    } else {
        let (done, cur) = scan(s.drop_last());
        if !is_punct(s.last()) {
            (done, cur.push(s.last()))
        } else if cur.len() > 0 {
            (done.push(cur), Seq::empty())
        } else {
            (done, cur)
        }
    }
}

/// The fields of `s`: its longest runs of characters that are no
/// punctuation, in their order. No field is empty.
pub open spec fn fields(s: Seq<char>) -> Seq<Seq<char>> {
    let (done, cur) = scan(s);
    if cur.len() > 0 {
        done.push(cur)
    } else {
        done
    }
}

/// The number that the decimal digits `t` stand for, if `t` holds nothing but
/// digits.
pub open spec fn digits_value(t: Seq<char>) -> Option<nat>
    decreases t.len(),
{
    if t.len() == 0 {
        Some(0nat)
    } else {
        match digits_value(t.drop_last()) {
            Some(v) => if is_digit(t.last()) {
                Some((v * 10 + (t.last() as u32 - 0x30)) as nat)
            } else {
                None
            },
            None => None,
        }
    }
}

/// The number that the field `t` stands for: `t` is one or more decimal
/// digits, and the number fits into 32 bits.
pub open spec fn number(t: Seq<char>) -> Option<u32> {
    match digits_value(t) {
        Some(v) => if t.len() > 0 && v <= u32::MAX {
            Some(v as u32)
        } else {
            None
        },
        None => None,
    }
}

/// The coordinate pair that the text `s` stands for, or what is wrong with
/// it. The text must hold exactly two fields, both must be numbers, and the
/// pair must not come before the smallest quad size in the order of pairs.
pub open spec fn parsed_vec2(s: Seq<char>) -> Result<Vec2, Seq<char>> {
    let f = fields(s);
    if f.len() != 2 {
        Err(ERR_NOT_VEC2@)
    } else {
        match (number(f[0]), number(f[1])) {
            (Some(x), Some(y)) => if (Vec2 { x, y }).precedes(spec_default_min_size()) {
                Err(ERR_QUAD_TOO_SMALL@)
            } else {
                Ok(Vec2 { x, y })
            },
            _ => Err(ERR_NAN@),
        }
    }
}

/// The views of the elements of `v`.
pub open spec fn views(v: Seq<Vec<char>>) -> Seq<Seq<char>> {
    Seq::new(v.len(), |i: int| v[i]@)
}

fn is_ascii_punctuation(c: char) -> (r: bool)
    ensures
        r == is_punct(c),
{
    let n = c as u32;
    (0x21 <= n && n <= 0x2F) || (0x3A <= n && n <= 0x40) || (0x5B <= n && n <= 0x60) || (0x7B
        <= n && n <= 0x7E)
}

/// The characters of `s`.
pub fn chars_of(s: &str) -> (v: Vec<char>)
    ensures
        v@ == s@,
{
    let mut v: Vec<char> = Vec::new();
    for c in it: s.chars()
        invariant
            it.seq() == s@,
            v@ == s@.take(it.index()),
    {
        v.push(c);
        assert(s@.take(it.index() + 1) =~= s@.take(it.index()).push(c));
    }
    assert(s@.take(s@.len() as int) =~= s@);
    v
}

/// Splits `chars` into its fields, see [`fields`].
pub fn split_fields(chars: &Vec<char>) -> (out: Vec<Vec<char>>)
    ensures
        views(out@) == fields(chars@),
{
    let mut done: Vec<Vec<char>> = Vec::new();
    let mut cur: Vec<char> = Vec::new();
    let mut i: usize = 0;
    assert(chars@.take(0) =~= Seq::<char>::empty());
    assert(views(done@) =~= Seq::<Seq<char>>::empty());
    while i < chars.len()
        invariant
            i <= chars@.len(),
            views(done@) == scan(chars@.take(i as int)).0,
            cur@ == scan(chars@.take(i as int)).1,
        decreases chars@.len() - i,
    {
        let c = chars[i];
        proof {
            assert(chars@.take(i + 1).drop_last() =~= chars@.take(i as int));
            assert(chars@.take(i + 1).last() == c);
        }
        if !is_ascii_punctuation(c) {
            cur.push(c);
        } else if cur.len() > 0 {
            let ghost before = done@;
            let ghost field = cur@;
            done.push(cur);
            cur = Vec::new();
            assert(views(done@) =~= views(before).push(field));
        }
        i = i + 1;
    }
    assert(chars@.take(chars@.len() as int) =~= chars@);
    if cur.len() > 0 {
        let ghost before = done@;
        let ghost field = cur@;
        done.push(cur);
        assert(views(done@) =~= views(before).push(field));
    }
    done
}

proof fn lemma_digits_value_grows(t: Seq<char>, n: int)
    requires
        0 <= n <= t.len(),
        digits_value(t) is Some,
    ensures
        digits_value(t.take(n)) is Some,
        digits_value(t.take(n))->0 <= digits_value(t)->0,
    decreases t.len() - n,
{
    if n == t.len() {
        assert(t.take(n) =~= t);
    } else {
        assert(t.drop_last().take(n) =~= t.take(n));
        lemma_digits_value_grows(t.drop_last(), n);
    }
}

/// Reads the field `field` as a number, see [`number`].
pub fn parse_number(field: &Vec<char>) -> (r: Option<u32>)
    ensures
        r == number(field@),
{
    if field.len() == 0 {
        return None;
    }
    let mut acc: u64 = 0;
    let mut i: usize = 0;
    assert(field@.take(0) =~= Seq::<char>::empty());
    while i < field.len()
        invariant
            i <= field@.len(),
            field@.len() > 0,
            digits_value(field@.take(i as int)) == Some(acc as nat),
            acc <= u32::MAX,
        decreases field@.len() - i,
    {
        let c = field[i];
        let n = c as u32;
        proof {
            assert(field@.take(i + 1).drop_last() =~= field@.take(i as int));
            assert(field@.take(i + 1).last() == c);
        }
        if n < 0x30 || n > 0x39 {
            proof {
                if digits_value(field@) is Some {
                    lemma_digits_value_grows(field@, i + 1);
                }
            }
            return None;
        }
        let next = acc * 10 + (n - 0x30) as u64;
        if next > u32::MAX as u64 {
            proof {
                if digits_value(field@) is Some {
                    lemma_digits_value_grows(field@, i + 1);
                }
            }
            return None;
        }
        acc = next;
        i = i + 1;
    }
    assert(field@.take(field@.len() as int) =~= field@);
    Some(acc as u32)
}

/// Reads a coordinate pair from text, see [`parsed_vec2`]. Supported are two
/// numbers with any punctuation between and around them: `x,y`, `x;y`,
/// `[x,y]`.
pub fn parse_vec2(s: &str) -> (r: Result<Vec2, String>)
    ensures
        match r {
            Ok(v) => parsed_vec2(s@) == Ok::<Vec2, Seq<char>>(v),
            Err(e) => parsed_vec2(s@) == Err::<Vec2, Seq<char>>(e@),
        },
{
    let chars = chars_of(s);
    let split = split_fields(&chars);
    assert(views(split@).len() == split@.len());
    if split.len() != 2 {
        return Err(ERR_NOT_VEC2.to_owned());
    }
    assert(views(split@)[0] == split@[0]@);
    assert(views(split@)[1] == split@[1]@);
    let x: u32 = match parse_number(&split[0]) {
        Some(v) => v,
        None => {
            return Err(ERR_NAN.to_owned());
        },
    };
    let y: u32 = match parse_number(&split[1]) {
        Some(v) => v,
        None => {
            return Err(ERR_NAN.to_owned());
        },
    };
    let v = Vec2 { x, y };
    if v < default_min_size() {
        Err(ERR_QUAD_TOO_SMALL.to_owned())
    } else {
        Ok(v)
    }
}

/// Reads `s` as a CSS colour and gives its four channels, red, green, blue
/// and alpha, or what is wrong with it.
///
/// This is `parse` of the crate csscolorparser, with `to_rgba8` on the colour
/// and the text of the error. Nothing is claimed of what it makes of a text:
/// some of the notations that it reads go through functions whose last digit
/// is the machine's own.
#[verifier::external_body]
fn css_rgba8(s: &str) -> (r: Result<[u8; 4], String>) {
    match csscolorparser::parse(s) {
        Ok(c) => Ok(c.to_rgba8()),
        Err(e) => Err(e.to_string()),
    }
}

/// The colour that four channels stand for, in the order red, green, blue,
/// alpha; what was wrong stays what was wrong.
pub open spec fn color_of(parsed: Result<[u8; 4], String>) -> Result<Rgba, String> {
    match parsed {
        Ok(c) => Ok(Rgba { r: c@[0], g: c@[1], b: c@[2], a: c@[3] }),
        Err(e) => Err(e),
    }
}

/// Makes a colour of the four channels that reading a text gave, see
/// [`color_of`].
pub fn color_from(parsed: Result<[u8; 4], String>) -> (r: Result<Rgba, String>)
    ensures
        r == color_of(parsed),
{
    match parsed {
        Ok(c) => Ok(Rgba { r: c[0], g: c[1], b: c[2], a: c[3] }),
        Err(e) => Err(e),
    }
}

/// Reads a colour from text in one of the notations of CSS: a name, a hex
/// code, `rgb(..)` and the like.
pub fn parse_color(s: &str) -> (r: Result<Rgba, String>) {
    color_from(css_rgba8(s))
}

} // verus!
