//! Clipboard values: an opaque byte blob together with the storage kind
//! chosen for it.
//!
//! A `Mem` clipboard lives in the entry table itself; a `Persist` clipboard
//! lives in a file named by its full hash, and the table keeps only a marker.

use vstd::prelude::*;
use vstd::utf8::decode_utf8;
use vstd::utf8::valid_utf8;

verus! {

/// The key under which the in-memory storage kind is selected.
pub const MEM: &'static str = "mem";

/// The key under which the on-disk storage kind is selected.
pub const PERSIST: &'static str = "persist";

/// Clipboard data: an opaque ordered sequence of bytes.
pub struct Data(pub Vec<u8>);

impl View for Data {
    type V = Seq<u8>;

    open spec fn view(&self) -> Seq<u8> {
        self.0@
    }
}

impl Data {
    /// An exact copy of the bytes.
    pub fn duplicate(&self) -> (r: Data)
        ensures
            r@ == self@,
    {
        let n = self.0.len();
        let mut v: Vec<u8> = Vec::new();
        let mut i: usize = 0;
        while i < n
            invariant
                i <= n,
                n == self.0@.len(),
                v@ =~= self.0@.subrange(0, i as int),
            decreases n - i,
        {
            v.push(self.0[i]);
            i = i + 1;
        }
        proof {
            assert(v@ =~= self.0@);
        }
        Data(v)
    }

    /// The bytes as a slice.
    pub fn as_bytes(&self) -> (r: &[u8])
        ensures
            r@ == self@,
    {
        self.0.as_slice()
    }

    /// The number of bytes.
    pub fn len(&self) -> (r: usize)
        ensures
            r == self@.len(),
    {
        self.0.len()
    }

    /// Whether the blob holds no bytes.
    pub fn is_empty(&self) -> (r: bool)
        ensures
            r == (self@.len() == 0),
    {
        self.0.len() == 0
    }
}

/// Whether two string slices hold the same characters.
fn str_eq(a: &str, b: &str) -> (r: bool)
    ensures
        r == (a@ == b@),
{
    let sa = a.to_owned();
    let sb = b.to_owned();
    sa == sb
}

/// Relies on `String::from_utf8`: it succeeds exactly on valid UTF-8 input
/// and returns its decoding; on failure the bytes are handed back unchanged.
#[verifier::external_body]
fn vec_into_string(v: Vec<u8>) -> (r: Result<String, Vec<u8>>)
    ensures
        r is Ok <==> valid_utf8(v@),
        r matches Ok(s) ==> s@ == decode_utf8(v@),
        r matches Err(w) ==> w@ == v@,
{
    String::from_utf8(v).map_err(|e| e.into_bytes())
}

/// A clipboard: its bytes, tagged by where they are stored.
pub enum Clipboard {
    /// The blob lives in the entry table.
    Mem(Data),
    /// The blob lives in a file named by its full hash.
    Persist(Data),
}

impl Clipboard {
    /// The blob, regardless of storage kind.
    pub open spec fn data(self) -> Seq<u8> {
        match self {
            Clipboard::Mem(d) => d@,
            Clipboard::Persist(d) => d@,
        }
    }

    /// Whether the clipboard uses the on-disk storage kind.
    pub open spec fn is_persist(self) -> bool {
        self matches Clipboard::Persist(_)
    }

    /// An empty clipboard of the kind selected by `t`: `"persist"` selects
    /// the on-disk kind, anything else the in-memory kind.
    pub fn new(t: &str) -> (r: Self)
        ensures
            r.is_persist() <==> t@ == PERSIST@,
            r.data().len() == 0,
    {
        if str_eq(t, PERSIST) {
            Clipboard::Persist(Data(Vec::new()))
        } else {
            Clipboard::Mem(Data(Vec::new()))
        }
    }

    /// A clipboard holding `data`, of the kind selected by `t` as in
    /// [`Clipboard::new`].
    pub fn new_with_data(t: &str, data: Data) -> (r: Self)
        ensures
            r.is_persist() <==> t@ == PERSIST@,
            r.data() == data@,
    {
        if str_eq(t, PERSIST) {
            Clipboard::Persist(data)
        } else {
            Clipboard::Mem(data)
        }
    }

    /// Every storage kind is implemented; kept for callers that test it.
    pub fn is_implemented(&self) -> (r: Result<(), crate::error::StoreError>)
        ensures
            r is Ok,
    {
        Ok(())
    }

    /// The key naming this clipboard's storage kind.
    pub fn key(&self) -> (r: String)
        ensures
            self.is_persist() ==> r@ == PERSIST@,
            !self.is_persist() ==> r@ == MEM@,
    {
        match self {
            Clipboard::Mem(_) => String::from_str(MEM),
            Clipboard::Persist(_) => String::from_str(PERSIST),
        }
    }

    /// Whether the blob holds no bytes.
    pub fn is_empty(&self) -> (r: bool)
        ensures
            r == (self.data().len() == 0),
    {
        match self {
            Clipboard::Mem(d) => d.is_empty(),
            Clipboard::Persist(d) => d.is_empty(),
        }
    }

    /// The blob as a byte slice.
    pub fn bytes(&self) -> (r: &[u8])
        ensures
            r@ == self.data(),
    {
        match self {
            Clipboard::Mem(d) => d.as_bytes(),
            Clipboard::Persist(d) => d.as_bytes(),
        }
    }

    /// An exact copy, bytes and kind.
    pub fn duplicate(&self) -> (r: Clipboard)
        ensures
            r.data() == self.data(),
            r.is_persist() == self.is_persist(),
    {
        match self {
            Clipboard::Mem(d) => Clipboard::Mem(d.duplicate()),
            Clipboard::Persist(d) => Clipboard::Persist(d.duplicate()),
        }
    }

    /// The rendering given by [`Clipboard::debug_string`]: the quoted storage
    /// key, a colon, and the blob — decoded when it is valid UTF-8 and
    /// closed by a quote, otherwise printed as a bracketed list of decimal
    /// bytes with no closing quote.
    pub open spec fn debug_chars(self) -> Seq<char> {
        let key = if self.is_persist() {
            PERSIST@
        } else {
            MEM@
        };
        let head = seq!['"'].add(key).add(seq!['"', ':', '"']);
        if valid_utf8(self.data()) {
            head.add(decode_utf8(self.data())).add(seq!['"'])
        } else {
            head.add(debug_bytes_chars(self.data()))
        }
    }

    /// Renders the clipboard for diagnostics; see [`Clipboard::debug_chars`].
    pub fn debug_string(&self) -> (r: String)
        ensures
            r@ == self.debug_chars(),
    {
        let mut out = String::from_str("\"");
        let key = self.key();
        out.append(key.as_str());
        out.append("\":\"");
        proof {
            reveal_strlit("\"");
            reveal_strlit("\":\"");
            assert("\""@ =~= seq!['"']);
            assert("\":\""@ =~= seq!['"', ':', '"']);
        }
        let bytes = match self {
            Clipboard::Mem(d) => d.duplicate(),
            Clipboard::Persist(d) => d.duplicate(),
        };
        match vec_into_string(bytes.0) {
            Ok(s) => {
                out.append(s.as_str());
                out.append("\"");
                proof {
                    assert(out@ =~= self.debug_chars());
                }
            },
            Err(raw) => {
                let rendered = debug_bytes(&raw);
                out.append(rendered.as_str());
                proof {
                    assert(out@ =~= self.debug_chars());
                }
            },
        }
        out
    }
}

/// The decimal digit character for `d`.
pub open spec fn dec_digit_char(d: int) -> char
    recommends
        0 <= d < 10,
{
    (d + 48) as char
}

/// The decimal rendering of a byte, one to three digits, no leading zeros.
pub open spec fn dec_chars(n: u8) -> Seq<char> {
    if n < 10 {
        seq![dec_digit_char(n as int)]
    } else if n < 100 {
        seq![dec_digit_char(n as int / 10), dec_digit_char(n as int % 10)]
    } else {
        seq![
            dec_digit_char(n as int / 100),
            dec_digit_char((n as int / 10) % 10),
            dec_digit_char(n as int % 10),
        ]
    }
}

/// The byte list rendering: decimal bytes separated by a comma and a space,
/// in square brackets.
pub open spec fn debug_bytes_chars(s: Seq<u8>) -> Seq<char> {
    seq!['['].add(debug_bytes_inner(s)).add(seq![']'])
}

/// The bracketed list's inside: decimal bytes joined by `", "`.
pub open spec fn debug_bytes_inner(s: Seq<u8>) -> Seq<char> {
    debug_bytes_from(s, 0)
}

/// The renderings of `s[i]`, `s[i + 1]`, … joined by `", "`.
pub open spec fn debug_bytes_from(s: Seq<u8>, i: int) -> Seq<char>
    decreases s.len() - i,
{
    if i < 0 || i >= s.len() {
        seq![]
    } else if i == s.len() - 1 {
        dec_chars(s[i])
    } else {
        dec_chars(s[i]).add(seq![',', ' ']).add(debug_bytes_from(s, i + 1))
    }
}

/// What `debug_bytes` still has to append once the first `i` bytes are
/// rendered: a separator, when some byte was already rendered and more follow,
/// then the rest of the list.
spec fn debug_bytes_remaining(s: Seq<u8>, i: int) -> Seq<char> {
    if 0 < i < s.len() {
        seq![',', ' '].add(debug_bytes_from(s, i))
    } else if i == 0 {
        debug_bytes_from(s, 0)
    } else {
        seq![]
    }
}

/// The decimal digit `d` as a string slice.
fn digit_str(d: u8) -> (r: &'static str)
    requires
        d < 10,
    ensures
        r@ == seq![dec_digit_char(d as int)],
{
    proof {
        reveal_strlit("0");
        reveal_strlit("1");
        reveal_strlit("2");
        reveal_strlit("3");
        reveal_strlit("4");
        reveal_strlit("5");
        reveal_strlit("6");
        reveal_strlit("7");
        reveal_strlit("8");
        reveal_strlit("9");
    }
    match d {
        0 => {
            proof {
                assert("0"@ =~= seq![dec_digit_char(0)]);
            }
            "0"
        },
        1 => {
            proof {
                assert("1"@ =~= seq![dec_digit_char(1)]);
            }
            "1"
        },
        2 => {
            proof {
                assert("2"@ =~= seq![dec_digit_char(2)]);
            }
            "2"
        },
        3 => {
            proof {
                assert("3"@ =~= seq![dec_digit_char(3)]);
            }
            "3"
        },
        4 => {
            proof {
                assert("4"@ =~= seq![dec_digit_char(4)]);
            }
            "4"
        },
        5 => {
            proof {
                assert("5"@ =~= seq![dec_digit_char(5)]);
            }
            "5"
        },
        6 => {
            proof {
                assert("6"@ =~= seq![dec_digit_char(6)]);
            }
            "6"
        },
        7 => {
            proof {
                assert("7"@ =~= seq![dec_digit_char(7)]);
            }
            "7"
        },
        8 => {
            proof {
                assert("8"@ =~= seq![dec_digit_char(8)]);
            }
            "8"
        },
        _ => {
            proof {
                assert("9"@ =~= seq![dec_digit_char(9)]);
            }
            "9"
        },
    }
}

/// Appends the decimal rendering of `n` to `out`.
fn push_dec(out: &mut String, n: u8)
    ensures
        final(out)@ == old(out)@.add(dec_chars(n)),
{
    if n < 10 {
        out.append(digit_str(n));
    } else if n < 100 {
        out.append(digit_str(n / 10));
        out.append(digit_str(n % 10));
        proof {
            assert(old(out)@.add(seq![dec_digit_char(n as int / 10)]).add(
                seq![dec_digit_char(n as int % 10)],
            ) =~= old(out)@.add(dec_chars(n)));
        }
    } else {
        out.append(digit_str(n / 100));
        out.append(digit_str((n / 10) % 10));
        out.append(digit_str(n % 10));
        proof {
            assert(old(out)@.add(seq![dec_digit_char(n as int / 100)]).add(
                seq![dec_digit_char((n as int / 10) % 10)],
            ).add(seq![dec_digit_char(n as int % 10)]) =~= old(out)@.add(dec_chars(n)));
        }
    }
}

/// Renders bytes as a bracketed list of decimals, as
/// [`debug_bytes_chars`] describes.
fn debug_bytes(bytes: &Vec<u8>) -> (r: String)
    ensures
        r@ == debug_bytes_chars(bytes@),
{
    let mut out = String::from_str("[");
    proof {
        reveal_strlit("[");
        reveal_strlit("]");
        reveal_strlit(", ");
        assert("["@ =~= seq!['[']);
        assert("]"@ =~= seq![']']);
        assert(", "@ =~= seq![',', ' ']);
    }
    let n = bytes.len();
    let mut i: usize = 0;
    while i < n
        invariant
            i <= n,
            n == bytes@.len(),
            out@.add(debug_bytes_remaining(bytes@, i as int)) =~= seq!['['].add(
                debug_bytes_from(bytes@, 0),
            ),
        decreases n - i,
    {
        let ghost before = out@;
        if i > 0 {
            out.append(", ");
        }
        push_dec(&mut out, bytes[i]);
        proof {
            reveal_strlit(", ");
            assert(", "@ =~= seq![',', ' ']);
            let s = bytes@;
            let j = i as int;
            if j == 0 {
                assert(out@ == before.add(dec_chars(s[0])));
                if s.len() > 1 {
                    assert(debug_bytes_from(s, 0) == dec_chars(s[0]).add(seq![',', ' ']).add(
                        debug_bytes_from(s, 1),
                    ));
                    assert(out@.add(debug_bytes_remaining(s, 1)) =~= before.add(
                        debug_bytes_from(s, 0),
                    ));
                } else {
                    assert(debug_bytes_from(s, 0) == dec_chars(s[0]));
                    assert(out@.add(debug_bytes_remaining(s, 1)) =~= before.add(
                        debug_bytes_from(s, 0),
                    ));
                }
            } else {
                assert(out@ == before.add(seq![',', ' ']).add(dec_chars(s[j])));
                if j < s.len() - 1 {
                    assert(debug_bytes_from(s, j) == dec_chars(s[j]).add(seq![',', ' ']).add(
                        debug_bytes_from(s, j + 1),
                    ));
                    assert(out@.add(debug_bytes_remaining(s, j + 1)) =~= before.add(
                        debug_bytes_remaining(s, j),
                    ));
                } else {
                    assert(debug_bytes_from(s, j) == dec_chars(s[j]));
                    assert(out@.add(debug_bytes_remaining(s, j + 1)) =~= before.add(
                        debug_bytes_remaining(s, j),
                    ));
                }
            }
        }
        i = i + 1;
    }
    out.append("]");
    proof {
        assert(debug_bytes_remaining(bytes@, n as int) =~= Seq::<char>::empty());
        assert(out@ =~= debug_bytes_chars(bytes@));
    }
    out
}

} // verus!
