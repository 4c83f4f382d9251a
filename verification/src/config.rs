//! User configuration: the grid cell height and the extra characters to
//! include in the template set, each given either as a single literal
//! character or as a `U+XXXX` hexadecimal code point.

use vstd::prelude::*;

verus! {

/// The configured cell height and extra template characters.
pub struct Config {
    pub cell_height: i32,
    pub extra_chars: Vec<String>,
}

impl Default for Config {
    /// The stock configuration: 40-pixel cells, no extra characters.
    fn default() -> (r: Config)
        ensures
            r.cell_height == 40,
            r.extra_chars@.len() == 0,
    {
        Config { cell_height: 40, extra_chars: Vec::new() }
    }
}

/// The value of one hexadecimal digit.
pub open spec fn hex_digit(c: char) -> Option<int> {
    if '0' <= c <= '9' {
        Some(c as int - '0' as int)
    } else if 'a' <= c <= 'f' {
        Some(c as int - 'a' as int + 10)
    } else if 'A' <= c <= 'F' {
        Some(c as int - 'A' as int + 10)
    } else {
        None
    }
}

/// The value of a hexadecimal digit string; `None` when empty or when any
/// character is not a digit.
pub open spec fn hex_value(s: Seq<char>) -> Option<int>
    decreases s.len(),
{
    if s.len() == 0 {
        None
    } else if s.len() == 1 {
        hex_digit(s[0])
    } else {
        match (hex_value(s.drop_last()), hex_digit(s.last())) {
            (Some(v), Some(d)) => Some(v * 16 + d),
            _ => None,
        }
    }
}

/// A valid Unicode scalar value: anything below the surrogate range or
/// between it and the last code point.
pub open spec fn is_scalar_value(u: int) -> bool {
    (0 <= u < 0xD800) || (0xE000 <= u <= 0x10FFFF)
}

/// The character one configured entry stands for: a `U+` prefix followed by
/// hex digits of a valid scalar value, or a single literal character.
pub open spec fn entry_char(s: Seq<char>) -> Option<char> {
    if s.len() >= 2 && s[0] == 'U' && s[1] == '+' {
        match hex_value(s.skip(2)) {
            Some(v) => if v <= 0xFFFF_FFFF && is_scalar_value(v) {
                Some(((v as u32) as char))
            } else {
                None
            },
            None => None,
        }
    } else if s.len() == 1 {
        Some(s[0])
    } else {
        None
    }
}

/// The characters of all the entries that parse, in order.
pub open spec fn extras_spec(entries: Seq<Seq<char>>) -> Seq<char>
    decreases entries.len(),
{
    if entries.len() == 0 {
        Seq::<char>::empty()
    } else {
        let front = extras_spec(entries.drop_last());
        match entry_char(entries.last()) {
            Some(c) => front.push(c),
            None => front,
        }
    }
}

/// Relies on `char::from_u32`: it returns `Some` exactly for valid Unicode
/// scalar values, and the returned character has that code point.
#[verifier::external_body]
fn char_from_u32(u: u32) -> (r: Option<char>)
    ensures
        r == (if is_scalar_value(u as int) {
            Some(u as char)
        } else {
            None::<char>
        }),
{
    char::from_u32(u)
}

proof fn lemma_hex_nonneg(s: Seq<char>)
    requires
        hex_value(s) is Some,
    ensures
        hex_value(s)->0 >= 0,
        s.len() > 1 ==> hex_value(s.drop_last()) is Some && hex_value(s.drop_last())->0 <= hex_value(
            s,
        )->0,
    decreases s.len(),
{
    if s.len() > 1 {
        lemma_hex_nonneg(s.drop_last());
    }
}

/// A single bad character makes the whole digit string invalid.
proof fn lemma_hex_digit_none(s: Seq<char>, j: int)
    requires
        0 <= j < s.len(),
        hex_digit(s[j]) is None,
    ensures
        hex_value(s) is None,
    decreases s.len(),
{
    if s.len() > 1 && j < s.len() - 1 {
        assert(s.drop_last()[j] == s[j]);
        lemma_hex_digit_none(s.drop_last(), j);
    }
}

/// Parse a hexadecimal digit string, rejecting anything above `u32::MAX`.
fn parse_hex(s: &str, start: usize) -> (r: Option<u32>)
    requires
        start <= s@.len(),
    ensures
        ({
            let tail = s@.skip(start as int);
            match hex_value(tail) {
                Some(v) => if v <= 0xFFFF_FFFF {
                    r == Some(v as u32)
                } else {
                    r is None
                },
                None => r is None,
            }
        }),
{
    let n = s.unicode_len();
    if start == n {
        return None;
    }
    let ghost tail = s@.skip(start as int);
    let mut acc: u64 = 0;
    let mut over = false;
    let mut j: usize = start;
    proof {
        assert(tail.take(0) =~= Seq::<char>::empty());
    }
    while j < n
        invariant
            start <= j <= n,
            n == s@.len(),
            start < n,
            tail == s@.skip(start as int),
            ({
                let pre = tail.take(j - start);
                j == start || match hex_value(pre) {
                    Some(v) => (!over ==> acc == v && v <= 0xFFFF_FFFF) && (over ==> v
                        > 0xFFFF_FFFF),
                    None => false,
                }
            }),
            j > start ==> hex_value(tail.take(j - start)) is Some,
            j == start ==> acc == 0 && !over,
            acc <= 0xFFFF_FFFF,
        decreases n - j,
    {
        let c = s.get_char(j);
        proof {
            assert(tail[j - start] == s@[j as int]);
            assert(tail.take(j - start + 1).drop_last() =~= tail.take(j - start));
            assert(tail.take(j - start + 1).last() == tail[j - start]);
        }
        let d: u64 = if '0' <= c && c <= '9' {
            (c as u32 - '0' as u32) as u64
        } else if 'a' <= c && c <= 'f' {
            (c as u32 - 'a' as u32 + 10) as u64
        } else if 'A' <= c && c <= 'F' {
            (c as u32 - 'A' as u32 + 10) as u64
        } else {
            proof {
                lemma_hex_digit_none(tail, j - start);
            }
            return None;
        };
        proof {
            assert(hex_digit(c) == Some(d as int));
            let pre = tail.take(j - start);
            let pre2 = tail.take(j - start + 1);
            if j == start {
                assert(pre2 =~= seq![c]);
                assert(hex_value(pre2) == Some(d as int));
            } else {
                assert(hex_value(pre2) == Some(hex_value(pre)->0 * 16 + d));
                lemma_hex_nonneg(pre2);
            }
        }
        if over {
            // the value can only keep growing past the limit
        } else {
            let next = acc * 16 + d;
            if next > 0xFFFF_FFFF {
                over = true;
            } else {
                acc = next;
            }
        }
        j += 1;
    }
    proof {
        assert(tail.take(n - start) =~= tail);
    }
    if over {
        None
    } else {
        Some(acc as u32)
    }
}

impl Config {
    /// The extra characters the configuration names, in order, skipping
    /// entries that do not parse.
    pub fn extra_chars(&self) -> (r: Vec<char>)
        ensures
            r@ == extras_spec(self.extra_chars@.map_values(|s: String| s@)),
    {
        let ghost entries = self.extra_chars@.map_values(|s: String| s@);
        let mut out: Vec<char> = Vec::new();
        let n = self.extra_chars.len();
        let mut j: usize = 0;
        while j < n
            invariant
                j <= n,
                n == entries.len(),
                entries == self.extra_chars@.map_values(|s: String| s@),
                out@ == extras_spec(entries.take(j as int)),
            decreases n - j,
        {
            proof {
                assert(entries.take(j + 1 as int).drop_last() =~= entries.take(j as int));
                assert(entries.take(j + 1 as int).last() == entries[j as int]);
                assert(entries[j as int] == self.extra_chars@[j as int]@);
            }
            let s = &self.extra_chars[j];
            let ghost sv = entries[j as int];
            let ghost pre_out = out@;
            let len = s.as_str().unicode_len();
            if len >= 2 && s.as_str().get_char(0) == 'U' && s.as_str().get_char(1) == '+' {
                match parse_hex(s.as_str(), 2) {
                    Some(v) => {
                        match char_from_u32(v) {
                            Some(c) => {
                                proof {
                                    assert(hex_value(sv.skip(2)) is Some);
                                    lemma_hex_nonneg(sv.skip(2));
                                    assert(entry_char(sv) == Some(c));
                                }
                                out.push(c);
                            },
                            None => {
                                proof {
                                    assert(entry_char(sv) is None);
                                }
                            },
                        }
                    },
                    None => {
                        proof {
                            assert(entry_char(sv) is None);
                        }
                    },
                }
            } else if len == 1 {
                proof {
                    assert(entry_char(sv) == Some(sv[0]));
                }
                out.push(s.as_str().get_char(0));
            } else {
                proof {
                    assert(entry_char(sv) is None);
                }
            }
            proof {
                assert(out@ =~= extras_spec(entries.take(j + 1 as int)));
            }
            j += 1;
        }
        proof {
            assert(entries.take(n as int) =~= entries);
        }
        out
    }
}

} // verus!
