//! The single-byte Windows-ANSI text encoding used for PDF strings.
//!
//! Every Unicode scalar with a code point in 32..255 keeps its value; a
//! fixed set of typographic characters maps into the 128..160 range;
//! everything else encodes as `?`. The PDF string delimiters `\`, `(`
//! and `)` are escaped with a backslash.

use vstd::prelude::*;
use vstd::string::StrSliceExecFns;

verus! {

/// The Windows-ANSI code assigned to `c`, if any.
pub open spec fn win_ansi_code(c: char) -> Option<u8> {
    if 32 <= (c as u32) && (c as u32) < 255 {
        Some((c as u32) as u8)
    } else if c == '\u{20ac}' {
        Some(128u8)
    } else if c == '\u{201a}' {
        Some(130u8)
    } else if c == '\u{192}' {
        Some(131u8)
    } else if c == '\u{201e}' {
        Some(132u8)
    } else if c == '\u{2026}' {
        Some(133u8)
    } else if c == '\u{2020}' {
        Some(134u8)
    } else if c == '\u{2021}' {
        Some(135u8)
    } else if c == '\u{2c6}' {
        Some(136u8)
    } else if c == '\u{2030}' {
        Some(137u8)
    } else if c == '\u{160}' {
        Some(138u8)
    } else if c == '\u{2039}' {
        Some(139u8)
    } else if c == '\u{152}' {
        Some(140u8)
    } else if c == '\u{17d}' {
        Some(142u8)
    } else if c == '\u{2018}' {
        Some(145u8)
    } else if c == '\u{2019}' {
        Some(146u8)
    } else if c == '\u{201c}' {
        Some(147u8)
    } else if c == '\u{201d}' {
        Some(148u8)
    } else if c == '\u{2022}' {
        Some(149u8)
    } else if c == '\u{2013}' {
        Some(150u8)
    } else if c == '\u{2014}' {
        Some(151u8)
    } else if c == '\u{2dc}' {
        Some(152u8)
    } else if c == '\u{2122}' {
        Some(153u8)
    } else if c == '\u{161}' {
        Some(154u8)
    } else if c == '\u{203a}' {
        Some(155u8)
    } else if c == '\u{17e}' {
        Some(158u8)
    } else if c == '\u{178}' {
        Some(159u8)
    } else {
        None
    }
}

/// The bytes emitted for one character: its code with a backslash
/// escape for the string delimiters, or `?` for an unencodable one.
pub open spec fn win_ansi_escaped(c: char) -> Seq<u8> {
    match win_ansi_code(c) {
        Some(b) => {
            if b == 92 || b == 40 || b == 41 {
                seq![92u8, b]
            } else {
                seq![b]
            }
        },
        None => seq![63u8],
    }
}

/// The encoding of a whole text, character by character.
pub open spec fn win_ansi_encoded(s: Seq<char>) -> Seq<u8>
    decreases s.len(),
{
    if s.len() == 0 {
        Seq::empty()
    } else {
        win_ansi_escaped(s[0]) + win_ansi_encoded(s.skip(1))
    }
}

/// Extending the text by one character appends that character's bytes.
pub proof fn lemma_win_ansi_encoded_snoc(s: Seq<char>, i: int)
    requires
        0 <= i < s.len(),
    ensures
        win_ansi_encoded(s.take(i + 1)) == win_ansi_encoded(s.take(i)) + win_ansi_escaped(s[i]),
    decreases i,
{
    if i == 0 {
        assert(s.take(1) =~= seq![s[0]]);
        assert(s.take(1).skip(1) =~= Seq::<char>::empty());
        assert(s.take(0) =~= Seq::<char>::empty());
        assert(win_ansi_encoded(s.take(1)) =~= win_ansi_escaped(s[0]));
        assert(win_ansi_encoded(s.take(0)) + win_ansi_escaped(s[0]) =~= win_ansi_escaped(s[0]));
    } else {
        lemma_win_ansi_encoded_snoc(s.skip(1), i - 1);
        assert(s.take(i + 1).skip(1) =~= s.skip(1).take(i));
        assert(s.take(i).skip(1) =~= s.skip(1).take(i - 1));
        assert(s.take(i + 1)[0] == s[0]);
        assert(s.take(i)[0] == s[0]);
        assert(s.skip(1)[i - 1] == s[i]);
        assert(win_ansi_encoded(s.take(i + 1)) == win_ansi_escaped(s[0]) + win_ansi_encoded(
            s.skip(1).take(i),
        ));
        assert(win_ansi_encoded(s.take(i)) == win_ansi_escaped(s[0]) + win_ansi_encoded(
            s.skip(1).take(i - 1),
        ));
        assert(win_ansi_encoded(s.take(i)) + win_ansi_escaped(s[i]) == win_ansi_escaped(s[0])
            + (win_ansi_encoded(s.skip(1).take(i - 1)) + win_ansi_escaped(s[i])));
    }
}

/// The Windows-ANSI code of `c`, if it has one.
pub fn encode_char(c: char) -> (r: Option<u8>)
    ensures
        r == win_ansi_code(c),
{
    let u = c as u32;
    if 32 <= u && u < 255 {
        Some(u as u8)
    } else if c == '\u{20ac}' {
        Some(128)
    } else if c == '\u{201a}' {
        Some(130)
    } else if c == '\u{192}' {
        Some(131)
    } else if c == '\u{201e}' {
        Some(132)
    } else if c == '\u{2026}' {
        Some(133)
    } else if c == '\u{2020}' {
        Some(134)
    } else if c == '\u{2021}' {
        Some(135)
    } else if c == '\u{2c6}' {
        Some(136)
    } else if c == '\u{2030}' {
        Some(137)
    } else if c == '\u{160}' {
        Some(138)
    } else if c == '\u{2039}' {
        Some(139)
    } else if c == '\u{152}' {
        Some(140)
    } else if c == '\u{17d}' {
        Some(142)
    } else if c == '\u{2018}' {
        Some(145)
    } else if c == '\u{2019}' {
        Some(146)
    } else if c == '\u{201c}' {
        Some(147)
    } else if c == '\u{201d}' {
        Some(148)
    } else if c == '\u{2022}' {
        Some(149)
    } else if c == '\u{2013}' {
        Some(150)
    } else if c == '\u{2014}' {
        Some(151)
    } else if c == '\u{2dc}' {
        Some(152)
    } else if c == '\u{2122}' {
        Some(153)
    } else if c == '\u{161}' {
        Some(154)
    } else if c == '\u{203a}' {
        Some(155)
    } else if c == '\u{17e}' {
        Some(158)
    } else if c == '\u{178}' {
        Some(159)
    } else {
        None
    }
}

/// Encode a text to Windows-ANSI bytes, escaping `\`, `(` and `)`.
pub fn encode(text: &str) -> (r: Vec<u8>)
    ensures
        r@ == win_ansi_encoded(text@),
{
    let n = text.unicode_len();
    let mut r: Vec<u8> = Vec::new();
    let mut i: usize = 0;
    while i < n
        invariant
            n == text@.len(),
            i <= n,
            r@ == win_ansi_encoded(text@.take(i as int)),
        decreases n - i,
    {
        let c = text.get_char(i);
        match encode_char(c) {
            Some(b) => {
                if b == 92 || b == 40 || b == 41 {
                    r.push(92);
                    r.push(b);
                } else {
                    r.push(b);
                }
            },
            None => {
                r.push(63);
            },
        }
        proof {
            lemma_win_ansi_encoded_snoc(text@, i as int);
        }
        i = i + 1;
    }
    proof {
        assert(text@.take(n as int) =~= text@);
    }
    r
}

/// How many times byte `b` occurs in `s`.
pub open spec fn count_byte(s: Seq<u8>, b: u8) -> nat
    decreases s.len(),
{
    if s.len() == 0 {
        0
    } else {
        (if s[0] == b {
            1nat
        } else {
            0nat
        }) + count_byte(s.skip(1), b)
    }
}

/// How many times character `c` occurs in `s`.
pub open spec fn count_char(s: Seq<char>, c: char) -> nat
    decreases s.len(),
{
    if s.len() == 0 {
        0
    } else {
        (if s[0] == c {
            1nat
        } else {
            0nat
        }) + count_char(s.skip(1), c)
    }
}

proof fn lemma_count_byte_concat(a: Seq<u8>, b: Seq<u8>, x: u8)
    ensures
        count_byte(a + b, x) == count_byte(a, x) + count_byte(b, x),
    decreases a.len(),
{
    if a.len() == 0 {
        assert(a + b =~= b);
    } else {
        assert((a + b).skip(1) =~= a.skip(1) + b);
        assert((a + b)[0] == a[0]);
        lemma_count_byte_concat(a.skip(1), b, x);
    }
}

/// Escaping is never doubled: for a text holding no backslash, the
/// encoded bytes hold exactly one backslash per parenthesis in the
/// text, the one that escapes it.
pub proof fn lemma_escape_count(s: Seq<char>)
    requires
        forall|i: int| 0 <= i < s.len() ==> s[i] != '\\',
    ensures
        count_byte(win_ansi_encoded(s), 92) == count_char(s, '(') + count_char(s, ')'),
    decreases s.len(),
{
    if s.len() == 0 {
    } else {
        let c = s[0];
        let e = win_ansi_escaped(c);
        assert(forall|i: int| 0 <= i < s.skip(1).len() ==> #[trigger] s.skip(1)[i] != '\\');
        lemma_escape_count(s.skip(1));
        lemma_count_byte_concat(e, win_ansi_encoded(s.skip(1)), 92);
        assert(count_byte(e, 92) == (if c == '(' || c == ')' {
            1nat
        } else {
            0nat
        })) by {
            match win_ansi_code(c) {
                Some(b) => {
                    if b == 92 {
                        assert(32 <= (c as u32) && (c as u32) < 255 && (c as u32) as u8 == 92);
                        assert(c as u32 == 92);
                        vstd::utf8::char_u32_cast(c, 92);
                        vstd::utf8::char_u32_cast('\\', 92);
                        assert(c == '\\');
                        assert(false);
                    } else if b == 40 || b == 41 {
                        assert(c as u32 == b as u32);
                        if b == 40 {
                            vstd::utf8::char_u32_cast(c, 40);
                            vstd::utf8::char_u32_cast('(', 40);
                        } else {
                            vstd::utf8::char_u32_cast(c, 41);
                            vstd::utf8::char_u32_cast(')', 41);
                        }
                        assert(c == '(' || c == ')');
                        assert(e =~= seq![92u8, b]);
                        assert(e.skip(1) =~= seq![b]);
                        assert(seq![b].skip(1) =~= Seq::<u8>::empty());
                        assert(count_byte(Seq::<u8>::empty(), 92) == 0);
                        assert(b != 92);
                        assert(count_byte(seq![b], 92) == 0 + count_byte(
                            Seq::<u8>::empty(),
                            92,
                        ));
                        assert(count_byte(e, 92) == 1 + count_byte(seq![b], 92));
                    } else {
                        assert(c != '(' && c != ')') by {
                            if c == '(' {
                                assert(win_ansi_code(c) == Some(40u8));
                            }
                            if c == ')' {
                                assert(win_ansi_code(c) == Some(41u8));
                            }
                        };
                        assert(e =~= seq![b]);
                        assert(e.skip(1) =~= Seq::<u8>::empty());
                        assert(count_byte(Seq::<u8>::empty(), 92) == 0);
                        assert(b != 92);
                        assert(count_byte(e, 92) == 0 + count_byte(Seq::<u8>::empty(), 92));
                    }
                },
                None => {
                    assert(c != '(' && c != ')') by {
                        if c == '(' {
                            assert(win_ansi_code(c) == Some(40u8));
                        }
                        if c == ')' {
                            assert(win_ansi_code(c) == Some(41u8));
                        }
                    };
                    assert(e =~= seq![63u8]);
                    assert(e.skip(1) =~= Seq::<u8>::empty());
                    assert(count_byte(Seq::<u8>::empty(), 92) == 0);
                    assert(count_byte(e, 92) == 0 + count_byte(Seq::<u8>::empty(), 92));
                },
            }
        };
    }
}


/// Whether two texts hold the same characters.
fn str_eq(a: &str, b: &str) -> (r: bool)
    ensures
        r == (a@ == b@),
{
    let n = a.unicode_len();
    let m = b.unicode_len();
    if n != m {
        proof {
            if a@ == b@ {
                assert(a@.len() == b@.len());
            }
        }
        return false;
    }
    let mut i: usize = 0;
    while i < n
        invariant
            n == a@.len(),
            n == b@.len(),
            i <= n,
            forall|k: int| 0 <= k < i ==> a@[k] == b@[k],
        decreases n - i,
    {
        if a.get_char(i) != b.get_char(i) {
            proof {
                assert(a@[i as int] != b@[i as int]);
            }
            return false;
        }
        i = i + 1;
    }
    proof {
        assert(a@ =~= b@);
    }
    true
}

/// The Windows-ANSI code of a glyph name, as font metric tables use
/// them.
pub open spec fn win_ansi_name_code(s: Seq<char>) -> Option<u8> {
    win_ansi_name_code_0(s)
}

pub open spec fn win_ansi_name_code_0(s: Seq<char>) -> Option<u8> {
    if s == "space"@ {
        Some(32u8)
    } else if s == "exclam"@ {
        Some(33u8)
    } else if s == "quotedbl"@ {
        Some(34u8)
    } else if s == "numbersign"@ {
        Some(35u8)
    } else if s == "dollar"@ {
        Some(36u8)
    } else if s == "percent"@ {
        Some(37u8)
    } else if s == "ampersand"@ {
        Some(38u8)
    } else if s == "quotesingle"@ {
        Some(39u8)
    } else if s == "parenleft"@ {
        Some(40u8)
    } else if s == "parenright"@ {
        Some(41u8)
    } else if s == "asterisk"@ {
        Some(42u8)
    } else if s == "plus"@ {
        Some(43u8)
    } else if s == "comma"@ {
        Some(44u8)
    } else if s == "hyphen"@ {
        Some(45u8)
    } else if s == "period"@ {
        Some(46u8)
    } else if s == "slash"@ {
        Some(47u8)
    } else if s == "zero"@ {
        Some(48u8)
    } else if s == "one"@ {
        Some(49u8)
    } else if s == "two"@ {
        Some(50u8)
    } else if s == "three"@ {
        Some(51u8)
    } else if s == "four"@ {
        Some(52u8)
    } else if s == "five"@ {
        Some(53u8)
    } else if s == "six"@ {
        Some(54u8)
    } else if s == "seven"@ {
        Some(55u8)
    } else if s == "eight"@ {
        Some(56u8)
    } else if s == "nine"@ {
        Some(57u8)
    } else if s == "colon"@ {
        Some(58u8)
    } else if s == "semicolon"@ {
        Some(59u8)
    } else if s == "less"@ {
        Some(60u8)
    } else if s == "equal"@ {
        Some(61u8)
    } else if s == "greater"@ {
        Some(62u8)
    } else if s == "question"@ {
        Some(63u8)
    } else if s == "at"@ {
        Some(64u8)
    } else if s == "A"@ {
        Some(65u8)
    } else if s == "B"@ {
        Some(66u8)
    } else if s == "C"@ {
        Some(67u8)
    } else if s == "D"@ {
        Some(68u8)
    } else if s == "E"@ {
        Some(69u8)
    } else if s == "F"@ {
        Some(70u8)
    } else if s == "G"@ {
        Some(71u8)
    } else if s == "H"@ {
        Some(72u8)
    } else if s == "I"@ {
        Some(73u8)
    } else if s == "J"@ {
        Some(74u8)
    } else if s == "K"@ {
        Some(75u8)
    } else if s == "L"@ {
        Some(76u8)
    } else if s == "M"@ {
        Some(77u8)
    } else if s == "N"@ {
        Some(78u8)
    } else if s == "O"@ {
        Some(79u8)
    } else if s == "P"@ {
        Some(80u8)
    } else if s == "Q"@ {
        Some(81u8)
    } else if s == "R"@ {
        Some(82u8)
    } else if s == "S"@ {
        Some(83u8)
    } else if s == "T"@ {
        Some(84u8)
    } else if s == "U"@ {
        Some(85u8)
    } else {
        win_ansi_name_code_1(s)
    }
}

pub open spec fn win_ansi_name_code_1(s: Seq<char>) -> Option<u8> {
    if s == "V"@ {
        Some(86u8)
    } else if s == "W"@ {
        Some(87u8)
    } else if s == "X"@ {
        Some(88u8)
    } else if s == "Y"@ {
        Some(89u8)
    } else if s == "Z"@ {
        Some(90u8)
    } else if s == "bracketleft"@ {
        Some(91u8)
    } else if s == "backslash"@ {
        Some(92u8)
    } else if s == "bracketright"@ {
        Some(93u8)
    } else if s == "asciicircum"@ {
        Some(94u8)
    } else if s == "underscore"@ {
        Some(95u8)
    } else if s == "grave"@ {
        Some(96u8)
    } else if s == "a"@ {
        Some(97u8)
    } else if s == "b"@ {
        Some(98u8)
    } else if s == "c"@ {
        Some(99u8)
    } else if s == "d"@ {
        Some(100u8)
    } else if s == "e"@ {
        Some(101u8)
    } else if s == "f"@ {
        Some(102u8)
    } else if s == "g"@ {
        Some(103u8)
    } else if s == "h"@ {
        Some(104u8)
    } else if s == "i"@ {
        Some(105u8)
    } else if s == "j"@ {
        Some(106u8)
    } else if s == "k"@ {
        Some(107u8)
    } else if s == "l"@ {
        Some(108u8)
    } else if s == "m"@ {
        Some(109u8)
    } else if s == "n"@ {
        Some(110u8)
    } else if s == "o"@ {
        Some(111u8)
    } else if s == "p"@ {
        Some(112u8)
    } else if s == "q"@ {
        Some(113u8)
    } else if s == "r"@ {
        Some(114u8)
    } else if s == "s"@ {
        Some(115u8)
    } else if s == "t"@ {
        Some(116u8)
    } else if s == "u"@ {
        Some(117u8)
    } else if s == "v"@ {
        Some(118u8)
    } else if s == "w"@ {
        Some(119u8)
    } else if s == "x"@ {
        Some(120u8)
    } else if s == "y"@ {
        Some(121u8)
    } else if s == "z"@ {
        Some(122u8)
    } else if s == "braceleft"@ {
        Some(123u8)
    } else if s == "bar"@ {
        Some(124u8)
    } else if s == "braceright"@ {
        Some(125u8)
    } else if s == "asciitilde"@ {
        Some(126u8)
    } else if s == "Euro"@ {
        Some(128u8)
    } else if s == "quotesinglbase"@ {
        Some(130u8)
    } else if s == "florin"@ {
        Some(131u8)
    } else if s == "quotedblbase"@ {
        Some(132u8)
    } else if s == "ellipsis"@ {
        Some(133u8)
    } else if s == "dagger"@ {
        Some(134u8)
    } else if s == "daggerdbl"@ {
        Some(135u8)
    } else if s == "circumflex"@ {
        Some(136u8)
    } else if s == "perthousand"@ {
        Some(137u8)
    } else if s == "Scaron"@ {
        Some(138u8)
    } else if s == "guilsinglleft"@ {
        Some(139u8)
    } else if s == "OE"@ {
        Some(140u8)
    } else if s == "Zcaron"@ {
        Some(142u8)
    } else {
        win_ansi_name_code_2(s)
    }
}

pub open spec fn win_ansi_name_code_2(s: Seq<char>) -> Option<u8> {
    if s == "quoteleft"@ {
        Some(145u8)
    } else if s == "quoteright"@ {
        Some(146u8)
    } else if s == "quotedblleft"@ {
        Some(147u8)
    } else if s == "quotedblright"@ {
        Some(148u8)
    } else if s == "bullet"@ {
        Some(149u8)
    } else if s == "endash"@ {
        Some(150u8)
    } else if s == "emdash"@ {
        Some(151u8)
    } else if s == "tilde"@ {
        Some(152u8)
    } else if s == "trademark"@ {
        Some(153u8)
    } else if s == "scaron"@ {
        Some(154u8)
    } else if s == "guilsinglright"@ {
        Some(155u8)
    } else if s == "oe"@ {
        Some(156u8)
    } else if s == "zcaron"@ {
        Some(158u8)
    } else if s == "Ydieresis"@ {
        Some(159u8)
    } else if s == "exclamdown"@ {
        Some(161u8)
    } else if s == "cent"@ {
        Some(162u8)
    } else if s == "sterling"@ {
        Some(163u8)
    } else if s == "currency"@ {
        Some(164u8)
    } else if s == "yen"@ {
        Some(165u8)
    } else if s == "brokenbar"@ {
        Some(166u8)
    } else if s == "section"@ {
        Some(167u8)
    } else if s == "dieresis"@ {
        Some(168u8)
    } else if s == "copyright"@ {
        Some(169u8)
    } else if s == "ordfeminine"@ {
        Some(170u8)
    } else if s == "guillemotleft"@ {
        Some(171u8)
    } else if s == "logicalnot"@ {
        Some(172u8)
    } else if s == "registered"@ {
        Some(174u8)
    } else if s == "macron"@ {
        Some(175u8)
    } else if s == "degree"@ {
        Some(176u8)
    } else if s == "plusminus"@ {
        Some(177u8)
    } else if s == "twosuperior"@ {
        Some(178u8)
    } else if s == "threesuperior"@ {
        Some(179u8)
    } else if s == "acute"@ {
        Some(180u8)
    } else if s == "mu"@ {
        Some(181u8)
    } else if s == "paragraph"@ {
        Some(182u8)
    } else if s == "periodcentered"@ {
        Some(183u8)
    } else if s == "cedilla"@ {
        Some(184u8)
    } else if s == "onesuperior"@ {
        Some(185u8)
    } else if s == "ordmasculine"@ {
        Some(186u8)
    } else if s == "guillemotright"@ {
        Some(187u8)
    } else if s == "onequarter"@ {
        Some(188u8)
    } else if s == "onehalf"@ {
        Some(189u8)
    } else if s == "threequarters"@ {
        Some(190u8)
    } else if s == "questiondown"@ {
        Some(191u8)
    } else if s == "Agrave"@ {
        Some(192u8)
    } else if s == "Aacute"@ {
        Some(193u8)
    } else if s == "Acircumflex"@ {
        Some(194u8)
    } else if s == "Atilde"@ {
        Some(195u8)
    } else if s == "Adieresis"@ {
        Some(196u8)
    } else if s == "Aring"@ {
        Some(197u8)
    } else if s == "AE"@ {
        Some(198u8)
    } else if s == "Ccedilla"@ {
        Some(199u8)
    } else if s == "Egrave"@ {
        Some(200u8)
    } else if s == "Eacute"@ {
        Some(201u8)
    } else {
        win_ansi_name_code_3(s)
    }
}

pub open spec fn win_ansi_name_code_3(s: Seq<char>) -> Option<u8> {
    if s == "Ecircumflex"@ {
        Some(202u8)
    } else if s == "Edieresis"@ {
        Some(203u8)
    } else if s == "Igrave"@ {
        Some(204u8)
    } else if s == "Iacute"@ {
        Some(205u8)
    } else if s == "Icircumflex"@ {
        Some(206u8)
    } else if s == "Idieresis"@ {
        Some(207u8)
    } else if s == "Eth"@ {
        Some(208u8)
    } else if s == "Ntilde"@ {
        Some(209u8)
    } else if s == "Ograve"@ {
        Some(210u8)
    } else if s == "Oacute"@ {
        Some(211u8)
    } else if s == "Ocircumflex"@ {
        Some(212u8)
    } else if s == "Otilde"@ {
        Some(213u8)
    } else if s == "Odieresis"@ {
        Some(214u8)
    } else if s == "multiply"@ {
        Some(215u8)
    } else if s == "Oslash"@ {
        Some(216u8)
    } else if s == "Ugrave"@ {
        Some(217u8)
    } else if s == "Uacute"@ {
        Some(218u8)
    } else if s == "Ucircumflex"@ {
        Some(219u8)
    } else if s == "Udieresis"@ {
        Some(220u8)
    } else if s == "Yacute"@ {
        Some(221u8)
    } else if s == "Thorn"@ {
        Some(222u8)
    } else if s == "germandbls"@ {
        Some(223u8)
    } else if s == "agrave"@ {
        Some(224u8)
    } else if s == "aacute"@ {
        Some(225u8)
    } else if s == "acircumflex"@ {
        Some(226u8)
    } else if s == "atilde"@ {
        Some(227u8)
    } else if s == "adieresis"@ {
        Some(228u8)
    } else if s == "aring"@ {
        Some(229u8)
    } else if s == "ae"@ {
        Some(230u8)
    } else if s == "ccedilla"@ {
        Some(231u8)
    } else if s == "egrave"@ {
        Some(232u8)
    } else if s == "eacute"@ {
        Some(233u8)
    } else if s == "ecircumflex"@ {
        Some(234u8)
    } else if s == "edieresis"@ {
        Some(235u8)
    } else if s == "igrave"@ {
        Some(236u8)
    } else if s == "iacute"@ {
        Some(237u8)
    } else if s == "icircumflex"@ {
        Some(238u8)
    } else if s == "idieresis"@ {
        Some(239u8)
    } else if s == "eth"@ {
        Some(240u8)
    } else if s == "ntilde"@ {
        Some(241u8)
    } else if s == "ograve"@ {
        Some(242u8)
    } else if s == "oacute"@ {
        Some(243u8)
    } else if s == "ocircumflex"@ {
        Some(244u8)
    } else if s == "otilde"@ {
        Some(245u8)
    } else if s == "odieresis"@ {
        Some(246u8)
    } else if s == "divide"@ {
        Some(247u8)
    } else if s == "oslash"@ {
        Some(248u8)
    } else if s == "ugrave"@ {
        Some(249u8)
    } else if s == "uacute"@ {
        Some(250u8)
    } else if s == "ucircumflex"@ {
        Some(251u8)
    } else if s == "udieresis"@ {
        Some(252u8)
    } else if s == "yacute"@ {
        Some(253u8)
    } else if s == "thorn"@ {
        Some(254u8)
    } else if s == "ydieresis"@ {
        Some(255u8)
    } else {
        None
    }
}

/// Look up the Windows-ANSI code of a glyph name.
pub fn get_code(name: &str) -> (r: Option<u8>)
    ensures
        r == win_ansi_name_code(name@),
{
    get_code_0(name)
}

#[verifier::rlimit(100)]
fn get_code_0(name: &str) -> (r: Option<u8>)
    ensures
        r == win_ansi_name_code_0(name@),
{
    if str_eq(name, "space") {
        Some(32)
    } else if str_eq(name, "exclam") {
        Some(33)
    } else if str_eq(name, "quotedbl") {
        Some(34)
    } else if str_eq(name, "numbersign") {
        Some(35)
    } else if str_eq(name, "dollar") {
        Some(36)
    } else if str_eq(name, "percent") {
        Some(37)
    } else if str_eq(name, "ampersand") {
        Some(38)
    } else if str_eq(name, "quotesingle") {
        Some(39)
    } else if str_eq(name, "parenleft") {
        Some(40)
    } else if str_eq(name, "parenright") {
        Some(41)
    } else if str_eq(name, "asterisk") {
        Some(42)
    } else if str_eq(name, "plus") {
        Some(43)
    } else if str_eq(name, "comma") {
        Some(44)
    } else if str_eq(name, "hyphen") {
        Some(45)
    } else if str_eq(name, "period") {
        Some(46)
    } else if str_eq(name, "slash") {
        Some(47)
    } else if str_eq(name, "zero") {
        Some(48)
    } else if str_eq(name, "one") {
        Some(49)
    } else if str_eq(name, "two") {
        Some(50)
    } else if str_eq(name, "three") {
        Some(51)
    } else if str_eq(name, "four") {
        Some(52)
    } else if str_eq(name, "five") {
        Some(53)
    } else if str_eq(name, "six") {
        Some(54)
    } else if str_eq(name, "seven") {
        Some(55)
    } else if str_eq(name, "eight") {
        Some(56)
    } else if str_eq(name, "nine") {
        Some(57)
    } else if str_eq(name, "colon") {
        Some(58)
    } else if str_eq(name, "semicolon") {
        Some(59)
    } else if str_eq(name, "less") {
        Some(60)
    } else if str_eq(name, "equal") {
        Some(61)
    } else if str_eq(name, "greater") {
        Some(62)
    } else if str_eq(name, "question") {
        Some(63)
    } else if str_eq(name, "at") {
        Some(64)
    } else if str_eq(name, "A") {
        Some(65)
    } else if str_eq(name, "B") {
        Some(66)
    } else if str_eq(name, "C") {
        Some(67)
    } else if str_eq(name, "D") {
        Some(68)
    } else if str_eq(name, "E") {
        Some(69)
    } else if str_eq(name, "F") {
        Some(70)
    } else if str_eq(name, "G") {
        Some(71)
    } else if str_eq(name, "H") {
        Some(72)
    } else if str_eq(name, "I") {
        Some(73)
    } else if str_eq(name, "J") {
        Some(74)
    } else if str_eq(name, "K") {
        Some(75)
    } else if str_eq(name, "L") {
        Some(76)
    } else if str_eq(name, "M") {
        Some(77)
    } else if str_eq(name, "N") {
        Some(78)
    } else if str_eq(name, "O") {
        Some(79)
    } else if str_eq(name, "P") {
        Some(80)
    } else if str_eq(name, "Q") {
        Some(81)
    } else if str_eq(name, "R") {
        Some(82)
    } else if str_eq(name, "S") {
        Some(83)
    } else if str_eq(name, "T") {
        Some(84)
    } else if str_eq(name, "U") {
        Some(85)
    } else {
        get_code_1(name)
    }
}

#[verifier::rlimit(100)]
fn get_code_1(name: &str) -> (r: Option<u8>)
    ensures
        r == win_ansi_name_code_1(name@),
{
    if str_eq(name, "V") {
        Some(86)
    } else if str_eq(name, "W") {
        Some(87)
    } else if str_eq(name, "X") {
        Some(88)
    } else if str_eq(name, "Y") {
        Some(89)
    } else if str_eq(name, "Z") {
        Some(90)
    } else if str_eq(name, "bracketleft") {
        Some(91)
    } else if str_eq(name, "backslash") {
        Some(92)
    } else if str_eq(name, "bracketright") {
        Some(93)
    } else if str_eq(name, "asciicircum") {
        Some(94)
    } else if str_eq(name, "underscore") {
        Some(95)
    } else if str_eq(name, "grave") {
        Some(96)
    } else if str_eq(name, "a") {
        Some(97)
    } else if str_eq(name, "b") {
        Some(98)
    } else if str_eq(name, "c") {
        Some(99)
    } else if str_eq(name, "d") {
        Some(100)
    } else if str_eq(name, "e") {
        Some(101)
    } else if str_eq(name, "f") {
        Some(102)
    } else if str_eq(name, "g") {
        Some(103)
    } else if str_eq(name, "h") {
        Some(104)
    } else if str_eq(name, "i") {
        Some(105)
    } else if str_eq(name, "j") {
        Some(106)
    } else if str_eq(name, "k") {
        Some(107)
    } else if str_eq(name, "l") {
        Some(108)
    } else if str_eq(name, "m") {
        Some(109)
    } else if str_eq(name, "n") {
        Some(110)
    } else if str_eq(name, "o") {
        Some(111)
    } else if str_eq(name, "p") {
        Some(112)
    } else if str_eq(name, "q") {
        Some(113)
    } else if str_eq(name, "r") {
        Some(114)
    } else if str_eq(name, "s") {
        Some(115)
    } else if str_eq(name, "t") {
        Some(116)
    } else if str_eq(name, "u") {
        Some(117)
    } else if str_eq(name, "v") {
        Some(118)
    } else if str_eq(name, "w") {
        Some(119)
    } else if str_eq(name, "x") {
        Some(120)
    } else if str_eq(name, "y") {
        Some(121)
    } else if str_eq(name, "z") {
        Some(122)
    } else if str_eq(name, "braceleft") {
        Some(123)
    } else if str_eq(name, "bar") {
        Some(124)
    } else if str_eq(name, "braceright") {
        Some(125)
    } else if str_eq(name, "asciitilde") {
        Some(126)
    } else if str_eq(name, "Euro") {
        Some(128)
    } else if str_eq(name, "quotesinglbase") {
        Some(130)
    } else if str_eq(name, "florin") {
        Some(131)
    } else if str_eq(name, "quotedblbase") {
        Some(132)
    } else if str_eq(name, "ellipsis") {
        Some(133)
    } else if str_eq(name, "dagger") {
        Some(134)
    } else if str_eq(name, "daggerdbl") {
        Some(135)
    } else if str_eq(name, "circumflex") {
        Some(136)
    } else if str_eq(name, "perthousand") {
        Some(137)
    } else if str_eq(name, "Scaron") {
        Some(138)
    } else if str_eq(name, "guilsinglleft") {
        Some(139)
    } else if str_eq(name, "OE") {
        Some(140)
    } else if str_eq(name, "Zcaron") {
        Some(142)
    } else {
        get_code_2(name)
    }
}

#[verifier::rlimit(100)]
fn get_code_2(name: &str) -> (r: Option<u8>)
    ensures
        r == win_ansi_name_code_2(name@),
{
    if str_eq(name, "quoteleft") {
        Some(145)
    } else if str_eq(name, "quoteright") {
        Some(146)
    } else if str_eq(name, "quotedblleft") {
        Some(147)
    } else if str_eq(name, "quotedblright") {
        Some(148)
    } else if str_eq(name, "bullet") {
        Some(149)
    } else if str_eq(name, "endash") {
        Some(150)
    } else if str_eq(name, "emdash") {
        Some(151)
    } else if str_eq(name, "tilde") {
        Some(152)
    } else if str_eq(name, "trademark") {
        Some(153)
    } else if str_eq(name, "scaron") {
        Some(154)
    } else if str_eq(name, "guilsinglright") {
        Some(155)
    } else if str_eq(name, "oe") {
        Some(156)
    } else if str_eq(name, "zcaron") {
        Some(158)
    } else if str_eq(name, "Ydieresis") {
        Some(159)
    } else if str_eq(name, "exclamdown") {
        Some(161)
    } else if str_eq(name, "cent") {
        Some(162)
    } else if str_eq(name, "sterling") {
        Some(163)
    } else if str_eq(name, "currency") {
        Some(164)
    } else if str_eq(name, "yen") {
        Some(165)
    } else if str_eq(name, "brokenbar") {
        Some(166)
    } else if str_eq(name, "section") {
        Some(167)
    } else if str_eq(name, "dieresis") {
        Some(168)
    } else if str_eq(name, "copyright") {
        Some(169)
    } else if str_eq(name, "ordfeminine") {
        Some(170)
    } else if str_eq(name, "guillemotleft") {
        Some(171)
    } else if str_eq(name, "logicalnot") {
        Some(172)
    } else if str_eq(name, "registered") {
        Some(174)
    } else if str_eq(name, "macron") {
        Some(175)
    } else if str_eq(name, "degree") {
        Some(176)
    } else if str_eq(name, "plusminus") {
        Some(177)
    } else if str_eq(name, "twosuperior") {
        Some(178)
    } else if str_eq(name, "threesuperior") {
        Some(179)
    } else if str_eq(name, "acute") {
        Some(180)
    } else if str_eq(name, "mu") {
        Some(181)
    } else if str_eq(name, "paragraph") {
        Some(182)
    } else if str_eq(name, "periodcentered") {
        Some(183)
    } else if str_eq(name, "cedilla") {
        Some(184)
    } else if str_eq(name, "onesuperior") {
        Some(185)
    } else if str_eq(name, "ordmasculine") {
        Some(186)
    } else if str_eq(name, "guillemotright") {
        Some(187)
    } else if str_eq(name, "onequarter") {
        Some(188)
    } else if str_eq(name, "onehalf") {
        Some(189)
    } else if str_eq(name, "threequarters") {
        Some(190)
    } else if str_eq(name, "questiondown") {
        Some(191)
    } else if str_eq(name, "Agrave") {
        Some(192)
    } else if str_eq(name, "Aacute") {
        Some(193)
    } else if str_eq(name, "Acircumflex") {
        Some(194)
    } else if str_eq(name, "Atilde") {
        Some(195)
    } else if str_eq(name, "Adieresis") {
        Some(196)
    } else if str_eq(name, "Aring") {
        Some(197)
    } else if str_eq(name, "AE") {
        Some(198)
    } else if str_eq(name, "Ccedilla") {
        Some(199)
    } else if str_eq(name, "Egrave") {
        Some(200)
    } else if str_eq(name, "Eacute") {
        Some(201)
    } else {
        get_code_3(name)
    }
}

#[verifier::rlimit(100)]
fn get_code_3(name: &str) -> (r: Option<u8>)
    ensures
        r == win_ansi_name_code_3(name@),
{
    if str_eq(name, "Ecircumflex") {
        Some(202)
    } else if str_eq(name, "Edieresis") {
        Some(203)
    } else if str_eq(name, "Igrave") {
        Some(204)
    } else if str_eq(name, "Iacute") {
        Some(205)
    } else if str_eq(name, "Icircumflex") {
        Some(206)
    } else if str_eq(name, "Idieresis") {
        Some(207)
    } else if str_eq(name, "Eth") {
        Some(208)
    } else if str_eq(name, "Ntilde") {
        Some(209)
    } else if str_eq(name, "Ograve") {
        Some(210)
    } else if str_eq(name, "Oacute") {
        Some(211)
    } else if str_eq(name, "Ocircumflex") {
        Some(212)
    } else if str_eq(name, "Otilde") {
        Some(213)
    } else if str_eq(name, "Odieresis") {
        Some(214)
    } else if str_eq(name, "multiply") {
        Some(215)
    } else if str_eq(name, "Oslash") {
        Some(216)
    } else if str_eq(name, "Ugrave") {
        Some(217)
    } else if str_eq(name, "Uacute") {
        Some(218)
    } else if str_eq(name, "Ucircumflex") {
        Some(219)
    } else if str_eq(name, "Udieresis") {
        Some(220)
    } else if str_eq(name, "Yacute") {
        Some(221)
    } else if str_eq(name, "Thorn") {
        Some(222)
    } else if str_eq(name, "germandbls") {
        Some(223)
    } else if str_eq(name, "agrave") {
        Some(224)
    } else if str_eq(name, "aacute") {
        Some(225)
    } else if str_eq(name, "acircumflex") {
        Some(226)
    } else if str_eq(name, "atilde") {
        Some(227)
    } else if str_eq(name, "adieresis") {
        Some(228)
    } else if str_eq(name, "aring") {
        Some(229)
    } else if str_eq(name, "ae") {
        Some(230)
    } else if str_eq(name, "ccedilla") {
        Some(231)
    } else if str_eq(name, "egrave") {
        Some(232)
    } else if str_eq(name, "eacute") {
        Some(233)
    } else if str_eq(name, "ecircumflex") {
        Some(234)
    } else if str_eq(name, "edieresis") {
        Some(235)
    } else if str_eq(name, "igrave") {
        Some(236)
    } else if str_eq(name, "iacute") {
        Some(237)
    } else if str_eq(name, "icircumflex") {
        Some(238)
    } else if str_eq(name, "idieresis") {
        Some(239)
    } else if str_eq(name, "eth") {
        Some(240)
    } else if str_eq(name, "ntilde") {
        Some(241)
    } else if str_eq(name, "ograve") {
        Some(242)
    } else if str_eq(name, "oacute") {
        Some(243)
    } else if str_eq(name, "ocircumflex") {
        Some(244)
    } else if str_eq(name, "otilde") {
        Some(245)
    } else if str_eq(name, "odieresis") {
        Some(246)
    } else if str_eq(name, "divide") {
        Some(247)
    } else if str_eq(name, "oslash") {
        Some(248)
    } else if str_eq(name, "ugrave") {
        Some(249)
    } else if str_eq(name, "uacute") {
        Some(250)
    } else if str_eq(name, "ucircumflex") {
        Some(251)
    } else if str_eq(name, "udieresis") {
        Some(252)
    } else if str_eq(name, "yacute") {
        Some(253)
    } else if str_eq(name, "thorn") {
        Some(254)
    } else if str_eq(name, "ydieresis") {
        Some(255)
    } else {
        None
    }
}

} // verus!
