//! Verified building of endpoint URLs: `https://` + host + path + an
//! `application/x-www-form-urlencoded` query string.
//!
//! Encoding follows the form-urlencoded byte serializer: ASCII alphanumerics
//! and `*`, `-`, `.`, `_` stand for themselves, a space becomes `+`, and
//! every other byte of the character's UTF-8 encoding becomes `%` followed
//! by two uppercase hexadecimal digits.

use vstd::prelude::*;
use vstd::string::StrSliceExecFns;
use vstd::string::StringExecFns;

verus! {

/// Characters the form-urlencoded serializer leaves unchanged.
pub open spec fn spec_unchanged_char(c: char) -> bool {
    ||| ('0' <= c && c <= '9')
    ||| ('A' <= c && c <= 'Z')
    ||| ('a' <= c && c <= 'z')
    ||| c == '*'
    ||| c == '-'
    ||| c == '.'
    ||| c == '_'
}

/// Uppercase hexadecimal digit of `d`, which must be below sixteen.
pub open spec fn spec_hex_upper(d: int) -> char {
    if d == 0 {
        '0'
    } else if d == 1 {
        '1'
    } else if d == 2 {
        '2'
    } else if d == 3 {
        '3'
    } else if d == 4 {
        '4'
    } else if d == 5 {
        '5'
    } else if d == 6 {
        '6'
    } else if d == 7 {
        '7'
    } else if d == 8 {
        '8'
    } else if d == 9 {
        '9'
    } else if d == 10 {
        'A'
    } else if d == 11 {
        'B'
    } else if d == 12 {
        'C'
    } else if d == 13 {
        'D'
    } else if d == 14 {
        'E'
    } else {
        'F'
    }
}

/// The UTF-8 bytes of one character, as integers.
pub open spec fn spec_utf8_bytes(c: char) -> Seq<int> {
    let v = c as u32 as int;
    if v < 0x80 {
        seq![v]
    } else if v < 0x800 {
        seq![0xC0 + v / 64, 0x80 + v % 64]
    } else if v < 0x10000 {
        seq![0xE0 + v / 4096, 0x80 + (v / 64) % 64, 0x80 + v % 64]
    } else {
        seq![0xF0 + v / 262144, 0x80 + (v / 4096) % 64, 0x80 + (v / 64) % 64, 0x80 + v % 64]
    }
}

/// Percent escape of one byte value.
pub open spec fn spec_pct(b: int) -> Seq<char> {
    seq!['%', spec_hex_upper(b / 16), spec_hex_upper(b % 16)]
}

/// Percent escapes of a byte sequence.
pub open spec fn spec_pct_bytes(bs: Seq<int>) -> Seq<char>
    decreases bs.len(),
{
    if bs.len() == 0 {
        Seq::empty()
    } else {
        spec_pct_bytes(bs.drop_last()) + spec_pct(bs.last())
    }
}

/// Form-urlencoding of one character.
pub open spec fn spec_form_char(c: char) -> Seq<char> {
    if spec_unchanged_char(c) {
        seq![c]
    } else if c == ' ' {
        seq!['+']
    } else {
        spec_pct_bytes(spec_utf8_bytes(c))
    }
}

/// Form-urlencoding of a whole string.
pub open spec fn spec_form_encoded(s: Seq<char>) -> Seq<char>
    decreases s.len(),
{
    if s.len() == 0 {
        Seq::empty()
    } else {
        spec_form_encoded(s.drop_last()) + spec_form_char(s.last())
    }
}

/// One encoded `key=value` pair.
pub open spec fn spec_pair(p: (Seq<char>, Seq<char>)) -> Seq<char> {
    spec_form_encoded(p.0) + seq!['='] + spec_form_encoded(p.1)
}

/// The encoded pairs joined with `&`.
pub open spec fn spec_query_string(ps: Seq<(Seq<char>, Seq<char>)>) -> Seq<char>
    decreases ps.len(),
{
    if ps.len() == 0 {
        Seq::empty()
    } else if ps.len() == 1 {
        spec_pair(ps[0])
    } else {
        spec_query_string(ps.drop_last()) + seq!['&'] + spec_pair(ps.last())
    }
}

/// The views of a vector of string pairs.
pub open spec fn pair_views(ps: Seq<(String, String)>) -> Seq<(Seq<char>, Seq<char>)> {
    ps.map_values(|p: (String, String)| (p.0@, p.1@))
}

/// A full endpoint URL; the `?` is omitted when there are no pairs.
pub open spec fn spec_url(host: Seq<char>, path: Seq<char>, ps: Seq<(Seq<char>, Seq<char>)>) -> Seq<
    char,
> {
    "https://"@ + host + path + if ps.len() == 0 {
        Seq::<char>::empty()
    } else {
        seq!['?'] + spec_query_string(ps)
    }
}

proof fn lemma_pct_bytes1(a: int)
    ensures
        spec_pct_bytes(seq![a]) == spec_pct(a),
{
    reveal_with_fuel(spec_pct_bytes, 2);
    assert(seq![a].drop_last() =~= Seq::<int>::empty());
    assert(spec_pct_bytes(seq![a]) =~= spec_pct(a));
}

proof fn lemma_pct_bytes2(a: int, b: int)
    ensures
        spec_pct_bytes(seq![a, b]) == spec_pct(a) + spec_pct(b),
{
    lemma_pct_bytes1(a);
    assert(seq![a, b].drop_last() =~= seq![a]);
    assert(spec_pct_bytes(seq![a, b]) =~= spec_pct(a) + spec_pct(b));
}

proof fn lemma_pct_bytes3(a: int, b: int, c: int)
    ensures
        spec_pct_bytes(seq![a, b, c]) == spec_pct(a) + spec_pct(b) + spec_pct(c),
{
    lemma_pct_bytes2(a, b);
    assert(seq![a, b, c].drop_last() =~= seq![a, b]);
    assert(spec_pct_bytes(seq![a, b, c]) =~= spec_pct(a) + spec_pct(b) + spec_pct(c));
}

proof fn lemma_pct_bytes4(a: int, b: int, c: int, d: int)
    ensures
        spec_pct_bytes(seq![a, b, c, d]) == spec_pct(a) + spec_pct(b) + spec_pct(c) + spec_pct(d),
{
    lemma_pct_bytes3(a, b, c);
    assert(seq![a, b, c, d].drop_last() =~= seq![a, b, c]);
    assert(spec_pct_bytes(seq![a, b, c, d]) =~= spec_pct(a) + spec_pct(b) + spec_pct(c) + spec_pct(
        d,
    ));
}

fn hex_upper_str(d: u32) -> (r: &'static str)
    requires
        d < 16,
    ensures
        r@ =~= seq![spec_hex_upper(d as int)],
{
    proof {
        reveal_strlit("0");
        reveal_strlit("1");
        reveal_strlit("2");
        reveal_strlit("3");
        reveal_strlit("4");
        reveal_strlit("5");
        reveal_strlit("6");
        reveal_strlit("7");
        reveal_strlit("8");
        reveal_strlit("9");
        reveal_strlit("A");
        reveal_strlit("B");
        reveal_strlit("C");
        reveal_strlit("D");
        reveal_strlit("E");
        reveal_strlit("F");
    }
    match d {
        0 => "0",
        1 => "1",
        2 => "2",
        3 => "3",
        4 => "4",
        5 => "5",
        6 => "6",
        7 => "7",
        8 => "8",
        9 => "9",
        10 => "A",
        11 => "B",
        12 => "C",
        13 => "D",
        14 => "E",
        _ => "F",
    }
}

/// Appends the percent escape of byte value `b` to `out`.
fn write_pct(out: &mut String, b: u32)
    requires
        b < 256,
    ensures
        final(out)@ == old(out)@ + spec_pct(b as int),
{
    out.append("%");
    out.append(hex_upper_str(b / 16));
    out.append(hex_upper_str(b % 16));
    proof {
        reveal_strlit("%");
        assert("%"@ =~= seq!['%']);
        assert(out@ =~= old(out)@ + spec_pct(b as int));
    }
}

/// Appends the form-urlencoding of `s` to `out`.
pub fn write_form_encoded(out: &mut String, s: &str)
    ensures
        final(out)@ == old(out)@ + spec_form_encoded(s@),
{
    let n = s.unicode_len();
    let mut i: usize = 0;
    while i < n
        invariant
            n == s@.len(),
            i <= n,
            out@ == old(out)@ + spec_form_encoded(s@.take(i as int)),
        decreases n - i,
    {
        let c = s.get_char(i);
        let unchanged = (c >= '0' && c <= '9') || (c >= 'A' && c <= 'Z') || (c >= 'a' && c <= 'z')
            || c == '*' || c == '-' || c == '.' || c == '_';
        if unchanged {
            let piece = s.substring_char(i, i + 1);
            out.append(piece);
            proof {
                assert(piece@ =~= seq![s@[i as int]]);
                assert(seq![s@[i as int]] =~= spec_form_char(c));
            }
        } else if c == ' ' {
            out.append("+");
            proof {
                reveal_strlit("+");
                assert("+"@ =~= spec_form_char(c));
            }
        } else {
            let v = c as u32;
            if v < 0x80 {
                write_pct(out, v);
                proof {
                    lemma_pct_bytes1(v as int);
                    assert(spec_utf8_bytes(c) =~= seq![v as int]);
                }
            } else if v < 0x800 {
                write_pct(out, 0xC0 + v / 64);
                write_pct(out, 0x80 + v % 64);
                proof {
                    lemma_pct_bytes2(0xC0 + v as int / 64, 0x80 + v as int % 64);
                    assert(spec_utf8_bytes(c) =~= seq![0xC0 + v as int / 64, 0x80 + v as int % 64]);
                }
            } else if v < 0x10000 {
                write_pct(out, 0xE0 + v / 4096);
                write_pct(out, 0x80 + (v / 64) % 64);
                write_pct(out, 0x80 + v % 64);
                proof {
                    lemma_pct_bytes3(
                        0xE0 + v as int / 4096,
                        0x80 + (v as int / 64) % 64,
                        0x80 + v as int % 64,
                    );
                    assert(spec_utf8_bytes(c) =~= seq![
                        0xE0 + v as int / 4096,
                        0x80 + (v as int / 64) % 64,
                        0x80 + v as int % 64,
                    ]);
                }
            } else {
                write_pct(out, 0xF0 + v / 262144);
                write_pct(out, 0x80 + (v / 4096) % 64);
                write_pct(out, 0x80 + (v / 64) % 64);
                write_pct(out, 0x80 + v % 64);
                proof {
                    lemma_pct_bytes4(
                        0xF0 + v as int / 262144,
                        0x80 + (v as int / 4096) % 64,
                        0x80 + (v as int / 64) % 64,
                        0x80 + v as int % 64,
                    );
                    assert(spec_utf8_bytes(c) =~= seq![
                        0xF0 + v as int / 262144,
                        0x80 + (v as int / 4096) % 64,
                        0x80 + (v as int / 64) % 64,
                        0x80 + v as int % 64,
                    ]);
                }
            }
        }
        proof {
            assert(s@.take(i + 1).drop_last() =~= s@.take(i as int));
            assert(s@.take(i + 1).last() == s@[i as int]);
            assert(out@ =~= old(out)@ + spec_form_encoded(s@.take(i + 1)));
        }
        i = i + 1;
    }
    proof {
        assert(s@.take(n as int) =~= s@);
    }
}

/// Builds a full endpoint URL from host, path and query pairs.
pub fn build_url(host: &str, path: &str, pairs: &Vec<(String, String)>) -> (r: String)
    ensures
        r@ == spec_url(host@, path@, pair_views(pairs@)),
{
    let mut out = "https://".to_owned();
    out.append(host);
    out.append(path);
    let n = pairs.len();
    if n > 0 {
        out.append("?");
        proof {
            reveal_strlit("?");
            assert("?"@ =~= seq!['?']);
        }
        let mut i: usize = 0;
        while i < n
            invariant
                n == pairs@.len(),
                0 < n,
                i <= n,
                out@ == "https://"@ + host@ + path@ + seq!['?'] + spec_query_string(
                    pair_views(pairs@).take(i as int),
                ),
            decreases n - i,
        {
            if i > 0 {
                out.append("&");
                proof {
                    reveal_strlit("&");
                    assert("&"@ =~= seq!['&']);
                }
            }
            write_form_encoded(&mut out, pairs[i].0.as_str());
            out.append("=");
            proof {
                reveal_strlit("=");
                assert("="@ =~= seq!['=']);
            }
            write_form_encoded(&mut out, pairs[i].1.as_str());
            proof {
                let pv = pair_views(pairs@);
                assert(pv.take(i + 1).drop_last() =~= pv.take(i as int));
                assert(pv.take(i + 1).last() == pv[i as int]);
                if i == 0 {
                    assert(pv.take(1)[0] == pv[0]);
                }
                assert(pv[i as int] == (pairs@[i as int].0@, pairs@[i as int].1@));
                assert(out@ =~= "https://"@ + host@ + path@ + seq!['?'] + spec_query_string(
                    pv.take(i + 1),
                ));
            }
            i = i + 1;
        }
        proof {
            assert(pair_views(pairs@).take(n as int) =~= pair_views(pairs@));
        }
    }
    proof {
        assert(out@ =~= spec_url(host@, path@, pair_views(pairs@)));
    }
    out
}

} // verus!
