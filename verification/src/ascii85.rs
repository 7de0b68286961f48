//! ASCII base-85 encoding and decoding of binary streams.
//!
//! Input bytes are grouped into 32-bit words of four bytes each (the
//! last word zero-padded); every word becomes five digit characters in
//! the range 33..=117, except that an all-zero word becomes the single
//! character `z`. One trailing output byte is dropped for every padding
//! byte that was added. Decoding pads with `u` to a five-byte boundary
//! and inverts the digit groups, trimming the same number of bytes.

use vstd::arithmetic::div_mod::*;
use vstd::prelude::*;
use vstd::string::StringExecFns;

verus! {

/// The 32-bit word formed from four bytes, most significant first.
pub open spec fn word_of(b: Seq<u8>) -> nat
    recommends
        b.len() == 4,
{
    ((b[0] as nat) * 0x1000000 + (b[1] as nat) * 0x10000 + (b[2] as nat) * 0x100 + (
    b[3] as nat)) as nat
}

/// The five base-85 digit characters of a word, most significant
/// first, shifted into the printable range by 33.
#[verifier::opaque]
pub open spec fn a85_digits(w: nat) -> Seq<u8> {
    seq![
        (w / 52200625 % 85 + 33) as u8,
        (w / 614125 % 85 + 33) as u8,
        (w / 7225 % 85 + 33) as u8,
        (w / 85 % 85 + 33) as u8,
        (w % 85 + 33) as u8,
    ]
}

/// One encoded group: `z` for an all-zero word, five digits otherwise.
pub open spec fn a85_group(w: nat) -> Seq<u8> {
    if w == 0 {
        seq![122u8]
    } else {
        a85_digits(w)
    }
}

/// The encoding of a byte sequence whose length is a multiple of four.
pub open spec fn a85_groups(b: Seq<u8>) -> Seq<u8>
    decreases b.len(),
{
    if b.len() < 4 {
        Seq::empty()
    } else {
        a85_group(word_of(b.take(4))) + a85_groups(b.skip(4))
    }
}

/// How many zero bytes encoding appends to reach a four-byte boundary.
pub open spec fn a85_zero_pad(n: nat) -> nat {
    ((4 - n % 4) % 4) as nat
}

/// The input padded with zero bytes to a four-byte boundary.
pub open spec fn zero_padded(b: Seq<u8>) -> Seq<u8> {
    b + Seq::new(a85_zero_pad(b.len()), |i: int| 0u8)
}

/// The encoded form of an arbitrary byte sequence: the padded input's
/// groups, with one output byte dropped per padding byte.
pub open spec fn a85_encoded(b: Seq<u8>) -> Seq<u8> {
    let full = a85_groups(zero_padded(b));
    full.take(full.len() - a85_zero_pad(b.len()))
}

/// Whether the final truncation stays within the produced output, so
/// that encoding is well defined. Only very short all-zero inputs of
/// irregular length fall outside.
pub open spec fn a85_encodable(b: Seq<u8>) -> bool {
    a85_groups(zero_padded(b)).len() >= a85_zero_pad(b.len())
}

/// How many `u` characters decoding appends to reach a five-byte
/// boundary.
pub open spec fn a85_u_pad(n: nat) -> nat {
    ((5 - n % 5) % 5) as nat
}

/// The decoder's input padded with `u` characters.
pub open spec fn u_padded(b: Seq<u8>) -> Seq<u8> {
    b + Seq::new(a85_u_pad(b.len()), |i: int| 117u8)
}

/// Scanning one five-character window: digits accumulate base 85; a
/// `z` anywhere yields the zero word and ends the window; any other
/// character is an error.
pub open spec fn dec_scan(w: Seq<u8>, acc: nat) -> Option<nat>
    decreases w.len(),
{
    if w.len() == 0 {
        Some(acc)
    } else if 33 <= w[0] && w[0] <= 117 {
        dec_scan(w.skip(1), acc * 85 + ((w[0] - 33) as nat))
    } else if w[0] == 122 {
        Some(0)
    } else {
        None
    }
}

/// The four bytes of a 32-bit word, most significant first.
#[verifier::opaque]
pub open spec fn word_bytes(w: nat) -> Seq<u8> {
    seq![
        (w / 0x1000000 % 256) as u8,
        (w / 0x10000 % 256) as u8,
        (w / 0x100 % 256) as u8,
        (w % 256) as u8,
    ]
}

/// Decoding of a sequence whose length is a multiple of five.
pub open spec fn a85_dec_groups(b: Seq<u8>) -> Option<Seq<u8>>
    decreases b.len(),
{
    if b.len() < 5 {
        Some(Seq::empty())
    } else {
        match dec_scan(b.take(5), 0) {
            Some(w) => match a85_dec_groups(b.skip(5)) {
                Some(rest) => Some(word_bytes(w % 0x100000000) + rest),
                None => None,
            },
            None => None,
        }
    }
}

/// The decoded form of an arbitrary input, or `None` on an invalid
/// character.
pub open spec fn a85_decoded(b: Seq<u8>) -> Option<Seq<u8>> {
    match a85_dec_groups(u_padded(b)) {
        Some(out) => Some(out.take(out.len() - a85_u_pad(b.len()))),
        None => None,
    }
}

proof fn seq_add_assoc<A>(a: Seq<A>, b: Seq<A>, c: Seq<A>)
    ensures
        (a + b) + c == a + (b + c),
{
    assert((a + b) + c =~= a + (b + c));
}

proof fn lemma_groups_snoc(b: Seq<u8>, i: int)
    requires
        0 <= i,
        i % 4 == 0,
        i + 4 <= b.len(),
    ensures
        a85_groups(b.take(i + 4)) == a85_groups(b.take(i)) + a85_group(
            word_of(b.subrange(i, i + 4)),
        ),
    decreases i,
{
    if i == 0 {
        let g = a85_group(word_of(b.subrange(0, 4)));
        assert(b.take(4).take(4) =~= b.subrange(0, 4));
        assert(b.take(4).skip(4) =~= Seq::<u8>::empty());
        assert(b.take(4).len() == 4);
        assert(a85_groups(b.take(4)) == a85_group(word_of(b.take(4).take(4))) + a85_groups(
            b.take(4).skip(4),
        ));
        assert(a85_groups(Seq::<u8>::empty()) == Seq::<u8>::empty());
        assert(a85_groups(b.take(4)) == g + Seq::<u8>::empty());
        assert(g + Seq::<u8>::empty() =~= g);
        assert(a85_groups(b.take(0)) == Seq::<u8>::empty());
        assert(Seq::<u8>::empty() + g =~= g);
    } else {
        lemma_groups_snoc(b.skip(4), i - 4);
        let g0 = a85_group(word_of(b.take(4)));
        let gl = a85_group(word_of(b.subrange(i, i + 4)));
        let mid = a85_groups(b.skip(4).take(i - 4));
        assert(b.take(i + 4).take(4) =~= b.take(4));
        assert(b.take(i + 4).skip(4) =~= b.skip(4).take(i));
        assert(b.take(i).take(4) =~= b.take(4));
        assert(b.take(i).skip(4) =~= b.skip(4).take(i - 4));
        assert(b.skip(4).subrange(i - 4, i) =~= b.subrange(i, i + 4));
        assert(a85_groups(b.take(i + 4)) == g0 + (mid + gl));
        assert(a85_groups(b.take(i)) + gl == (g0 + mid) + gl);
        seq_add_assoc(g0, mid, gl);
    }
}

/// Decoding distributes over a boundary at a multiple of five.
proof fn lemma_dec_groups_split(s: Seq<u8>, t: Seq<u8>)
    requires
        s.len() % 5 == 0,
    ensures
        a85_dec_groups(s + t) == match a85_dec_groups(s) {
            Some(r1) => match a85_dec_groups(t) {
                Some(r2) => Some(r1 + r2),
                None => None,
            },
            None => None,
        },
    decreases s.len(),
{
    if s.len() == 0 {
        assert(s + t =~= t);
        assert(a85_dec_groups(s) == Some(Seq::<u8>::empty()));
        if a85_dec_groups(t) is Some {
            let r2 = a85_dec_groups(t)->Some_0;
            assert(Seq::<u8>::empty() + r2 =~= r2);
        }
    } else {
        assert(s.len() >= 5);
        assert((s + t).len() >= 5);
        assert((s + t).take(5) =~= s.take(5));
        assert((s + t).skip(5) =~= s.skip(5) + t);
        lemma_dec_groups_split(s.skip(5), t);
        match dec_scan(s.take(5), 0) {
            Some(w) => {
                match a85_dec_groups(s.skip(5)) {
                    Some(r1rest) => {
                        match a85_dec_groups(t) {
                            Some(r2) => {
                                assert(word_bytes(w % 0x100000000) + (r1rest + r2) =~= (word_bytes(
                                    w % 0x100000000,
                                ) + r1rest) + r2);
                            },
                            None => {},
                        }
                    },
                    None => {},
                }
            },
            None => {},
        }
    }
}

/// Append the encoded form of one word.
#[verifier::rlimit(100)]
fn push_group(out: &mut Vec<u8>, block: u32)
    ensures
        final(out)@ == old(out)@ + a85_group(block as nat),
{
    proof {
        reveal(a85_digits);
    }
    if block == 0 {
        out.push(122);
        proof {
            assert(out@ =~= old(out)@ + a85_group(0nat));
        }
    } else {
        let d0: u8 = (block / 52200625 % 85) as u8 + 33;
        let d1: u8 = (block / 614125 % 85) as u8 + 33;
        let d2: u8 = (block / 7225 % 85) as u8 + 33;
        let d3: u8 = (block / 85 % 85) as u8 + 33;
        let d4: u8 = (block % 85) as u8 + 33;
        out.push(d0);
        out.push(d1);
        out.push(d2);
        out.push(d3);
        out.push(d4);
        proof {
            assert(out@ =~= old(out)@ + a85_digits(block as nat));
        }
    }
}

/// Append the four bytes of one decoded word.
#[verifier::rlimit(100)]
fn push_word(out: &mut Vec<u8>, w: u64)
    requires
        w < 0x100000000,
    ensures
        final(out)@ == old(out)@ + word_bytes(w as nat),
{
    proof {
        reveal(word_bytes);
    }
    let o0: u8 = (w / 0x1000000 % 256) as u8;
    let o1: u8 = (w / 0x10000 % 256) as u8;
    let o2: u8 = (w / 0x100 % 256) as u8;
    let o3: u8 = (w % 256) as u8;
    out.push(o0);
    out.push(o1);
    out.push(o2);
    out.push(o3);
    proof {
        assert(out@ =~= old(out)@ + word_bytes(w as nat));
    }
}

/// Encode binary input to base-85 text. Empty input is an error.
#[verifier::rlimit(100)]
pub fn encode(input: &[u8]) -> (r: Result<Vec<u8>, String>)
    requires
        a85_encodable(input@),
    ensures
        input@.len() == 0 <==> r is Err,
        r matches Ok(v) ==> v@ == a85_encoded(input@),
{
    if input.len() == 0 {
        return Err(String::from_str("No input provided."));
    }
    let n: usize = input.len();
    let pad: usize = (4 - n % 4) % 4;
    proof {
        assert(pad as nat == a85_zero_pad(input@.len()));
    }
    let mut data: Vec<u8> = Vec::new();
    let mut i: usize = 0;
    while i < n
        invariant
            n == input@.len(),
            i <= n,
            data@ == input@.take(i as int),
        decreases n - i,
    {
        data.push(input[i]);
        proof {
            assert(input@.take(i + 1) =~= input@.take(i as int).push(input@[i as int]));
        }
        i = i + 1;
    }
    proof {
        assert(input@.take(n as int) =~= input@);
    }
    let mut k: usize = 0;
    while k < pad
        invariant
            k <= pad,
            data@ == input@ + Seq::new(k as nat, |j: int| 0u8),
        decreases pad - k,
    {
        data.push(0);
        proof {
            assert(input@ + Seq::new((k + 1) as nat, |j: int| 0u8) =~= (input@ + Seq::new(
                k as nat,
                |j: int| 0u8,
            )).push(0u8));
        }
        k = k + 1;
    }
    proof {
        assert(data@ =~= zero_padded(input@));
        assert(data@.len() == n + pad);
        assert((n + pad) % 4 == 0) by {
            if n % 4 == 0 {
            } else {
                assert(pad == 4 - n % 4);
                lemma_mod_adds(n as int, pad as int, 4);
            }
        };
    }
    let mut out: Vec<u8> = Vec::new();
    let mut pos: usize = 0;
    while pos < data.len()
        invariant
            data@ == zero_padded(input@),
            data@.len() % 4 == 0,
            pos % 4 == 0,
            pos <= data@.len(),
            out@ == a85_groups(data@.take(pos as int)),
        decreases data@.len() - pos,
    {
        let b0 = data[pos];
        let b1 = data[pos + 1];
        let b2 = data[pos + 2];
        let b3 = data[pos + 3];
        let block: u32 = (b0 as u32) * 0x1000000 + (b1 as u32) * 0x10000 + (b2 as u32) * 0x100 + (
        b3 as u32);
        proof {
            assert(data@.subrange(pos as int, pos + 4) =~= seq![b0, b1, b2, b3]);
            assert(block as nat == word_of(data@.subrange(pos as int, pos + 4)));
        }
        push_group(&mut out, block);
        proof {
            lemma_groups_snoc(data@, pos as int);
        }
        pos = pos + 4;
    }
    proof {
        assert(data@.take(data@.len() as int) =~= data@);
        assert(out@ == a85_groups(zero_padded(input@)));
    }
    let cut: usize = out.len() - pad;
    out.truncate(cut);
    Ok(out)
}

/// Decode base-85 text back to binary.
#[verifier::rlimit(100)]
#[verifier::loop_isolation(false)]
pub fn decode(bytes: Vec<u8>) -> (r: Result<Vec<u8>, String>)
    ensures
        a85_decoded(bytes@) matches Some(d) ==> r matches Ok(v) && v@ == d,
        a85_decoded(bytes@) is None ==> r is Err,
{
    let ghost orig = bytes@;
    let mut data = bytes;
    let n: usize = data.len();
    let pad: usize = (5 - n % 5) % 5;
    proof {
        assert(pad as nat == a85_u_pad(orig.len()));
    }
    let mut k: usize = 0;
    while k < pad
        invariant
            k <= pad,
            data@ == orig + Seq::new(k as nat, |j: int| 117u8),
        decreases pad - k,
    {
        data.push(117);
        proof {
            assert(orig + Seq::new((k + 1) as nat, |j: int| 117u8) =~= (orig + Seq::new(
                k as nat,
                |j: int| 117u8,
            )).push(117u8));
        }
        k = k + 1;
    }
    proof {
        assert(data@ =~= u_padded(orig));
        assert((n + pad) % 5 == 0) by {
            if n % 5 == 0 {
            } else {
                assert(pad == 5 - n % 5);
                lemma_mod_adds(n as int, pad as int, 5);
            }
        };
    }
    let mut out: Vec<u8> = Vec::new();
    let mut pos: usize = 0;
    while pos < data.len()
        invariant
            data@ == u_padded(orig),
            data@.len() % 5 == 0,
            pos % 5 == 0,
            pos <= data@.len(),
            a85_dec_groups(data@.take(pos as int)) == Some(out@),
            out@.len() == 4 * (pos as int / 5),
        decreases data@.len() - pos,
    {
        let ghost window = data@.subrange(pos as int, pos + 5);
        proof {
            assert(window.skip(0) =~= window);
        }
        let mut acc: u64 = 0;
        let mut j: usize = 0;
        let mut sawz: bool = false;
        while j < 5 && !sawz
            invariant
                data@ == u_padded(orig),
                data@.len() % 5 == 0,
                pos % 5 == 0,
                pos + 5 <= data@.len(),
                a85_dec_groups(data@.take(pos as int)) == Some(out@),
                j <= 5,
                window == data@.subrange(pos as int, pos + 5),
                acc < scan_bound(j as int),
                sawz ==> dec_scan(window, 0) == Some(0nat) && acc == 0,
                !sawz ==> dec_scan(window, 0) == dec_scan(window.skip(j as int), acc as nat),
            decreases 5 - j,
        {
            let c = data[pos + j];
            proof {
                assert(window.skip(j as int)[0] == c);
                lemma_scan_bound_values();
            }
            if 33 <= c && c <= 117 {
                proof {
                    assert(window.skip(j as int).skip(1) =~= window.skip(j + 1));
                }
                acc = acc * 85 + ((c - 33) as u64);
                j = j + 1;
            } else if c == 122 {
                acc = 0;
                sawz = true;
                j = 5;
            } else {
                proof {
                    assert(window.len() == 5);
                    assert(window.skip(j as int).len() > 0);
                    assert(dec_scan(window.skip(j as int), acc as nat) is None);
                    assert(dec_scan(window, 0) is None);
                    lemma_dec_groups_split(data@.take(pos as int), data@.skip(pos as int));
                    assert(data@.take(pos as int) + data@.skip(pos as int) =~= data@);
                    assert(data@.skip(pos as int).take(5) =~= window);
                    assert(a85_dec_groups(data@.skip(pos as int)) is None);
                    assert(a85_dec_groups(data@) is None);
                    assert(a85_decoded(orig) is None);
                }
                return Err(String::from_str("Invalid character in input."));
            }
        }
        proof {
            if !sawz {
                assert(window.skip(5) =~= Seq::<u8>::empty());
            }
            assert(dec_scan(window, 0) == Some(acc as nat));
            lemma_scan_bound_values();
        }
        let w: u64 = acc % 0x100000000;
        push_word(&mut out, w);
        proof {
            assert(data@.take(pos + 5).take(pos as int) =~= data@.take(pos as int));
            lemma_dec_groups_split(data@.take(pos as int), window);
            assert(data@.take(pos as int) + window =~= data@.take(pos + 5));
            assert(window.take(5) =~= window);
            assert(window.skip(5) =~= Seq::<u8>::empty());
            assert(a85_dec_groups(window.skip(5)) == Some(Seq::<u8>::empty()));
            assert(a85_dec_groups(window) == Some(
                word_bytes((acc as nat) % 0x100000000) + Seq::<u8>::empty(),
            ));
            assert(word_bytes((acc as nat) % 0x100000000) + Seq::<u8>::empty() =~= word_bytes(
                (acc as nat) % 0x100000000,
            ));
            assert((acc as nat) % 0x100000000 == w as nat);
            assert(word_bytes(w as nat).len() == 4) by {
                reveal(word_bytes);
            };
            assert(a85_dec_groups(data@.take(pos + 5)) == Some(out@));
            assert((pos + 5) as int / 5 == pos as int / 5 + 1);
        }
        pos = pos + 5;
    }
    proof {
        assert(data@.take(data@.len() as int) =~= data@);
        assert(out@.len() >= pad) by {
            if orig.len() > 0 {
                assert(data@.len() >= 5);
            } else {
                assert(pad == 0);
            }
        };
    }
    let cut: usize = out.len() - pad;
    out.truncate(cut);
    Ok(out)
}

/// An upper bound on the accumulator after `j` scanned digits.
spec fn scan_bound(j: int) -> nat
    decreases j,
{
    if j <= 0 {
        1
    } else {
        85 * scan_bound(j - 1)
    }
}

proof fn lemma_scan_bound_values()
    ensures
        scan_bound(0) == 1,
        scan_bound(1) == 85,
        scan_bound(2) == 7225,
        scan_bound(3) == 614125,
        scan_bound(4) == 52200625,
        scan_bound(5) == 4437053125,
{
}

/// Every group contributes at least one output byte.
proof fn lemma_groups_len_min(s: Seq<u8>)
    requires
        s.len() % 4 == 0,
    ensures
        a85_groups(s).len() >= s.len() / 4,
    decreases s.len(),
{
    if s.len() >= 4 {
        lemma_groups_len_min(s.skip(4));
        assert(a85_group(word_of(s.take(4))).len() >= 1) by {
            reveal(a85_digits);
        };
    }
}

/// A group with a nonzero word contributes five output bytes.
proof fn lemma_groups_len_word_nonzero(s: Seq<u8>, k: int)
    requires
        s.len() % 4 == 0,
        0 <= k < s.len() / 4,
        word_of(s.subrange(4 * k, 4 * k + 4)) != 0,
    ensures
        a85_groups(s).len() >= s.len() / 4 + 4,
    decreases s.len(),
{
    assert(s.len() >= 4);
    if k == 0 {
        assert(s.take(4) =~= s.subrange(0, 4));
        assert(a85_group(word_of(s.take(4))).len() == 5) by {
            reveal(a85_digits);
        };
        lemma_groups_len_min(s.skip(4));
    } else {
        assert(s.skip(4).subrange(4 * (k - 1), 4 * (k - 1) + 4) =~= s.subrange(4 * k, 4 * k + 4));
        lemma_groups_len_word_nonzero(s.skip(4), k - 1);
        assert(a85_group(word_of(s.take(4))).len() >= 1) by {
            reveal(a85_digits);
        };
    }
}

/// An all-zero padded sequence encodes to one `z` per group.
proof fn lemma_groups_all_zero(s: Seq<u8>)
    requires
        s.len() % 4 == 0,
        forall|i: int| 0 <= i < s.len() ==> s[i] == 0,
    ensures
        a85_groups(s).len() == s.len() / 4,
    decreases s.len(),
{
    if s.len() >= 4 {
        assert(word_of(s.take(4)) == 0);
        lemma_groups_all_zero(s.skip(4));
    }
}

/// An input with any nonzero byte can always be encoded.
pub proof fn lemma_nonzero_byte_encodable(b: Seq<u8>, i: int)
    requires
        0 <= i < b.len(),
        b[i] != 0,
    ensures
        a85_encodable(b),
{
    let zp = zero_padded(b);
    let k = i / 4;
    assert(zp.len() == b.len() + a85_zero_pad(b.len()));
    assert(zp.len() % 4 == 0) by {
        let n = b.len() as int;
        if n % 4 == 0 {
        } else {
            assert(a85_zero_pad(b.len()) == 4 - n % 4);
            lemma_mod_adds(n, 4 - n % 4, 4);
        }
    };
    assert(zp[i] == b[i]);
    lemma_fundamental_div_mod(i, 4);
    assert(0 <= k < zp.len() / 4);
    let grp = zp.subrange(4 * k, 4 * k + 4);
    assert(grp[i - 4 * k] == zp[i]);
    assert(word_of(grp) != 0) by {
        let r = i - 4 * k;
        assert(0 <= r < 4);
        if r == 0 {
            assert(word_of(grp) >= (grp[0] as nat) * 0x1000000);
        } else if r == 1 {
            assert(word_of(grp) >= (grp[1] as nat) * 0x10000);
        } else if r == 2 {
            assert(word_of(grp) >= (grp[2] as nat) * 0x100);
        } else {
            assert(word_of(grp) >= grp[3] as nat);
        }
    };
    lemma_groups_len_word_nonzero(zp, k);
    assert(a85_zero_pad(b.len()) < 4);
}

/// Whether `input` can be encoded; every input of a length divisible
/// by four can, as can every input holding a nonzero byte.
pub fn a85_check(input: &[u8]) -> (r: bool)
    ensures
        r == a85_encodable(input@),
{
    let n = input.len();
    if n % 4 == 0 {
        proof {
            assert(a85_zero_pad(input@.len()) == 0);
        }
        return true;
    }
    let mut i: usize = 0;
    while i < n
        invariant
            n == input@.len(),
            i <= n,
            forall|j: int| 0 <= j < i ==> input@[j] == 0,
        decreases n - i,
    {
        if input[i] != 0 {
            proof {
                lemma_nonzero_byte_encodable(input@, i as int);
            }
            return true;
        }
        i = i + 1;
    }
    let g: usize = n / 4 + 1;
    let p: usize = (4 - n % 4) % 4;
    proof {
        let zp = zero_padded(input@);
        assert(zp.len() % 4 == 0) by {
            assert(a85_zero_pad(input@.len()) == (4 - n as int % 4) % 4);
            lemma_mod_adds(n as int, p as int, 4);
        };
        assert(forall|j: int| 0 <= j < zp.len() ==> zp[j] == 0);
        lemma_groups_all_zero(zp);
        assert(zp.len() / 4 == g as int) by {
            lemma_fundamental_div_mod(n as int, 4);
            assert((n + p) as int == 4 * (g as int));
            lemma_fundamental_div_mod_converse((n + p) as int, 4, g as int, 0);
        };
    }
    g >= p
}

proof fn lemma_word_of_bound(q: Seq<u8>)
    requires
        q.len() == 4,
    ensures
        word_of(q) < 0x100000000,
{
    assert((q[0] as nat) <= 255 && (q[1] as nat) <= 255 && (q[2] as nat) <= 255 && (
    q[3] as nat) <= 255);
}

/// The bytes of the word formed from four bytes are those bytes.
proof fn lemma_word_bytes_of(q: Seq<u8>)
    requires
        q.len() == 4,
    ensures
        word_of(q) < 0x100000000,
        word_bytes(word_of(q)) == q,
{
    reveal(word_bytes);
    let b0 = q[0] as int;
    let b1 = q[1] as int;
    let b2 = q[2] as int;
    let b3 = q[3] as int;
    let w = word_of(q) as int;
    lemma_word_of_bound(q);
    assert(w == 0x1000000 * b0 + (b1 * 0x10000 + b2 * 0x100 + b3));
    lemma_fundamental_div_mod_converse(w, 0x1000000, b0, b1 * 0x10000 + b2 * 0x100 + b3);
    assert(w / 0x1000000 == b0);
    lemma_small_mod(q[0] as nat, 256);
    assert(w == 0x10000 * (b0 * 0x100 + b1) + (b2 * 0x100 + b3));
    lemma_fundamental_div_mod_converse(w, 0x10000, b0 * 0x100 + b1, b2 * 0x100 + b3);
    assert(w / 0x10000 == b0 * 0x100 + b1);
    lemma_mod_multiples_vanish(b0, b1, 0x100);
    lemma_small_mod(q[1] as nat, 256);
    assert(w == 0x100 * (b0 * 0x10000 + b1 * 0x100 + b2) + b3);
    lemma_fundamental_div_mod_converse(w, 0x100, b0 * 0x10000 + b1 * 0x100 + b2, b3);
    assert(w / 0x100 == b0 * 0x10000 + b1 * 0x100 + b2);
    lemma_mod_multiples_vanish(b0 * 0x100 + b1, b2, 0x100);
    lemma_small_mod(q[2] as nat, 256);
    lemma_mod_multiples_vanish(b0 * 0x10000 + b1 * 0x100 + b2, b3, 0x100);
    lemma_small_mod(q[3] as nat, 256);
    assert(word_bytes(word_of(q)) =~= q);
}

/// Scanning the five digit characters of a word recovers the word.
proof fn lemma_scan_digits(w: nat)
    requires
        w < 0x100000000,
    ensures
        dec_scan(a85_digits(w), 0) == Some(w),
{
    reveal(a85_digits);
    let d = a85_digits(w);
    let wi = w as int;
    assert(wi / 52200625 < 85) by {
        lemma_div_is_ordered(wi, 0xffffffff, 52200625);
    };
    lemma_small_mod((wi / 52200625) as nat, 85);
    lemma_mod_bound(wi / 614125, 85);
    lemma_mod_bound(wi / 7225, 85);
    lemma_mod_bound(wi / 85, 85);
    lemma_mod_bound(wi, 85);
    let a1 = wi / 52200625;
    let a2 = wi / 614125;
    let a3 = wi / 7225;
    let a4 = wi / 85;
    lemma_div_denominator(wi, 614125, 85);
    lemma_fundamental_div_mod(a2, 85);
    assert(a1 * 85 + a2 % 85 == a2);
    lemma_div_denominator(wi, 7225, 85);
    lemma_fundamental_div_mod(a3, 85);
    assert(a2 * 85 + a3 % 85 == a3);
    lemma_div_denominator(wi, 85, 85);
    lemma_fundamental_div_mod(a4, 85);
    assert(a3 * 85 + a4 % 85 == a4);
    lemma_fundamental_div_mod(wi, 85);
    assert(a4 * 85 + wi % 85 == wi);
    let s1 = seq![d[1], d[2], d[3], d[4]];
    let s2 = seq![d[2], d[3], d[4]];
    let s3 = seq![d[3], d[4]];
    let s4 = seq![d[4]];
    assert(d.skip(1) =~= s1);
    assert(s1.skip(1) =~= s2);
    assert(s2.skip(1) =~= s3);
    assert(s3.skip(1) =~= s4);
    assert(s4.skip(1) =~= Seq::<u8>::empty());
    assert(dec_scan(d, 0) == dec_scan(s1, a1 as nat));
    assert(dec_scan(s1, a1 as nat) == dec_scan(s2, a2 as nat)) by {
        assert((a1 * 85 + (s1[0] - 33)) as nat == a2 as nat);
    };
    assert(dec_scan(s2, a2 as nat) == dec_scan(s3, a3 as nat)) by {
        assert((a2 * 85 + (s2[0] - 33)) as nat == a3 as nat);
    };
    assert(dec_scan(s3, a3 as nat) == dec_scan(s4, a4 as nat)) by {
        assert((a3 * 85 + (s3[0] - 33)) as nat == a4 as nat);
    };
    assert(dec_scan(s4, a4 as nat) == dec_scan(Seq::<u8>::empty(), w)) by {
        assert((a4 * 85 + (s4[0] - 33)) as nat == w);
    };
    assert(dec_scan(d, 0) == Some(w));
}

/// Encoding distributes over a boundary at a multiple of four.
proof fn lemma_groups_concat(s: Seq<u8>, t: Seq<u8>)
    requires
        s.len() % 4 == 0,
    ensures
        a85_groups(s + t) == a85_groups(s) + a85_groups(t),
    decreases s.len(),
{
    if s.len() == 0 {
        assert(s + t =~= t);
        assert(Seq::<u8>::empty() + a85_groups(t) =~= a85_groups(t));
    } else {
        assert(s.len() >= 4);
        assert((s + t).len() >= 4);
        assert((s + t).take(4) =~= s.take(4));
        assert((s + t).skip(4) =~= s.skip(4) + t);
        lemma_groups_concat(s.skip(4), t);
        seq_add_assoc(
            a85_group(word_of(s.take(4))),
            a85_groups(s.skip(4)),
            a85_groups(t),
        );
    }
}

/// Decoding the groups of a zero-word-free sequence recovers it, and
/// leaves any remainder to be decoded on its own.
proof fn lemma_dec_of_groups(b: Seq<u8>, tail: Seq<u8>)
    requires
        b.len() % 4 == 0,
        forall|k: int|
            0 <= k < b.len() / 4 ==> word_of(#[trigger] b.subrange(4 * k, 4 * k + 4)) != 0,
    ensures
        a85_groups(b).len() == 5 * (b.len() / 4),
        a85_dec_groups(a85_groups(b) + tail) == match a85_dec_groups(tail) {
            Some(r) => Some(b + r),
            None => None,
        },
    decreases b.len(),
{
    if b.len() == 0 {
        assert(a85_groups(b) + tail =~= tail);
        if a85_dec_groups(tail) is Some {
            let r = a85_dec_groups(tail)->Some_0;
            assert(b + r =~= r);
        }
    } else {
        assert(b.len() >= 4);
        let first = b.take(4);
        assert(first =~= b.subrange(0, 4));
        let w0 = word_of(first);
        assert(word_of(b.subrange((4 * 0) as int, (4 * 0 + 4) as int)) != 0);
        assert(w0 != 0);
        lemma_word_bytes_of(first);
        lemma_scan_digits(w0);
        assert(forall|k: int|
            0 <= k < b.skip(4).len() / 4 ==> word_of(
                #[trigger] b.skip(4).subrange(4 * k, 4 * k + 4),
            ) != 0) by {
            assert forall|k: int| 0 <= k < b.skip(4).len() / 4 implies word_of(
                #[trigger] b.skip(4).subrange(4 * k, 4 * k + 4),
            ) != 0 by {
                assert(b.skip(4).subrange(4 * k, 4 * k + 4) =~= b.subrange(
                    4 * (k + 1),
                    4 * (k + 1) + 4,
                ));
                assert(word_of(b.subrange(4 * (k + 1), 4 * (k + 1) + 4)) != 0);
            }
        };
        lemma_dec_of_groups(b.skip(4), tail);
        let d0 = a85_digits(w0);
        assert(d0.len() == 5) by {
            reveal(a85_digits);
        };
        assert(a85_groups(b) == d0 + a85_groups(b.skip(4)));
        seq_add_assoc(d0, a85_groups(b.skip(4)), tail);
        let whole = a85_groups(b) + tail;
        assert(whole == d0 + (a85_groups(b.skip(4)) + tail));
        assert(whole.len() >= 5);
        assert(whole.take(5) =~= d0);
        assert(whole.skip(5) =~= a85_groups(b.skip(4)) + tail);
        assert(dec_scan(whole.take(5), 0) == Some(w0));
        lemma_small_mod(w0, 0x100000000);
        match a85_dec_groups(tail) {
            Some(r) => {
                assert(a85_dec_groups(whole.skip(5)) == Some(b.skip(4) + r));
                assert(a85_dec_groups(whole) == Some(first + (b.skip(4) + r)));
                assert(first + (b.skip(4) + r) =~= b + r);
            },
            None => {
                assert(a85_dec_groups(whole.skip(5)) is None);
            },
        }
    }
}

/// A word raised by less than its cleared low bytes keeps its high bytes.
#[verifier::rlimit(100)]
proof fn lemma_trunc_bytes(wi: int, wu: int, p: int)
    requires
        1 <= p <= 3,
        0 <= wi < 0x100000000,
        p == 1 ==> wi % 0x100 == 0 && wi <= wu < wi + 0x100,
        p == 2 ==> wi % 0x10000 == 0 && wi <= wu < wi + 0x10000,
        p == 3 ==> wi % 0x1000000 == 0 && wi <= wu < wi + 0x1000000,
    ensures
        0 <= wu < 0x100000000,
        word_bytes(wu as nat).take(4 - p) == word_bytes(wi as nat).take(4 - p),
{
    reveal(word_bytes);
    let dlt = wu - wi;
    if p == 1 {
        assert(wi <= 0xffffff00) by {
            lemma_fundamental_div_mod(wi, 0x100);
            assert(wi == 0x100 * (wi / 0x100));
            assert(wi / 0x100 <= 0xffffff) by {
                lemma_div_is_ordered(wi, 0xffffffff, 0x100);
            };
        };
        assert(wu / 0x100 == wi / 0x100) by {
            lemma_fundamental_div_mod(wi, 0x100);
            lemma_fundamental_div_mod_converse(wu, 0x100, wi / 0x100, dlt);
        };
        assert(wu / 0x10000 == wi / 0x10000) by {
            lemma_div_denominator(wu, 0x100, 0x100);
            lemma_div_denominator(wi, 0x100, 0x100);
        };
        assert(wu / 0x1000000 == wi / 0x1000000) by {
            lemma_div_denominator(wu, 0x100, 0x10000);
            lemma_div_denominator(wi, 0x100, 0x10000);
        };
        assert(word_bytes(wu as nat).take(3) =~= word_bytes(wi as nat).take(3));
    } else if p == 2 {
        assert(wi <= 0xffff0000) by {
            lemma_fundamental_div_mod(wi, 0x10000);
            assert(wi == 0x10000 * (wi / 0x10000));
            assert(wi / 0x10000 <= 0xffff) by {
                lemma_div_is_ordered(wi, 0xffffffff, 0x10000);
            };
        };
        assert(wu / 0x10000 == wi / 0x10000) by {
            lemma_fundamental_div_mod(wi, 0x10000);
            lemma_fundamental_div_mod_converse(wu, 0x10000, wi / 0x10000, dlt);
        };
        assert(wu / 0x1000000 == wi / 0x1000000) by {
            lemma_div_denominator(wu, 0x10000, 0x100);
            lemma_div_denominator(wi, 0x10000, 0x100);
        };
        assert(word_bytes(wu as nat).take(2) =~= word_bytes(wi as nat).take(2));
    } else {
        assert(wi <= 0xff000000) by {
            lemma_fundamental_div_mod(wi, 0x1000000);
            assert(wi == 0x1000000 * (wi / 0x1000000));
            assert(wi / 0x1000000 <= 0xff) by {
                lemma_div_is_ordered(wi, 0xffffffff, 0x1000000);
            };
        };
        assert(wu / 0x1000000 == wi / 0x1000000) by {
            lemma_fundamental_div_mod(wi, 0x1000000);
            lemma_fundamental_div_mod_converse(wu, 0x1000000, wi / 0x1000000, dlt);
        };
        assert(word_bytes(wu as nat).take(1) =~= word_bytes(wi as nat).take(1));
    }
}

#[verifier::rlimit(100)]
proof fn lemma_scan_truncated_p1(w: nat)
    requires
        w < 0x100000000,
        w % 0x100 == 0,
    ensures
        ({
            let t = a85_digits(w).take(5 - 1) + Seq::new(1nat, |i: int| 117u8);
            &&& dec_scan(t, 0) is Some
            &&& dec_scan(t, 0)->Some_0 < 0x100000000
            &&& word_bytes(dec_scan(t, 0)->Some_0).take(4 - 1) == word_bytes(w).take(4 - 1)
        }),
{
    reveal(a85_digits);
    reveal(word_bytes);
    let d = a85_digits(w);
    let wi = w as int;
    assert(wi / 52200625 < 85) by {
        lemma_div_is_ordered(wi, 0xffffffff, 52200625);
    };
    lemma_small_mod((wi / 52200625) as nat, 85);
    lemma_mod_bound(wi / 614125, 85);
    lemma_mod_bound(wi / 7225, 85);
    lemma_mod_bound(wi / 85, 85);
    lemma_mod_bound(wi, 85);
    let a1 = wi / 52200625;
    let a2 = wi / 614125;
    let a3 = wi / 7225;
    let a4 = wi / 85;
    lemma_div_denominator(wi, 614125, 85);
    lemma_fundamental_div_mod(a2, 85);
    lemma_div_denominator(wi, 7225, 85);
    lemma_fundamental_div_mod(a3, 85);
    lemma_div_denominator(wi, 85, 85);
    lemma_fundamental_div_mod(a4, 85);
    lemma_fundamental_div_mod(wi, 85);
    lemma_fundamental_div_mod(wi, 7225);
    lemma_fundamental_div_mod(wi, 614125);
    lemma_mod_bound(wi, 7225);
    lemma_mod_bound(wi, 614125);
    let t = d.take(5 - 1) + Seq::new(1nat, |i: int| 117u8);
    assert(t.len() == 5);
        assert(t =~= seq![d[0], d[1], d[2], d[3], 117u8]);
        let s1 = seq![d[1], d[2], d[3], 117u8];
        let s2 = seq![d[2], d[3], 117u8];
        let s3 = seq![d[3], 117u8];
        let s4 = seq![117u8];
        assert(t.skip(1) =~= s1);
        assert(s1.skip(1) =~= s2);
        assert(s2.skip(1) =~= s3);
        assert(s3.skip(1) =~= s4);
        assert(s4.skip(1) =~= Seq::<u8>::empty());
        assert(dec_scan(t, 0) == dec_scan(s1, a1 as nat));
        assert(dec_scan(s1, a1 as nat) == dec_scan(s2, a2 as nat)) by {
            assert((a1 * 85 + (s1[0] - 33)) as nat == a2 as nat);
        };
        assert(dec_scan(s2, a2 as nat) == dec_scan(s3, a3 as nat)) by {
            assert((a2 * 85 + (s2[0] - 33)) as nat == a3 as nat);
        };
        assert(dec_scan(s3, a3 as nat) == dec_scan(s4, a4 as nat)) by {
            assert((a3 * 85 + (s3[0] - 33)) as nat == a4 as nat);
        };
        let wu = a4 * 85 + 84;
        assert(dec_scan(s4, a4 as nat) == dec_scan(Seq::<u8>::empty(), (wu) as nat)) by {
            assert((a4 * 85 + (s4[0] - 33)) as nat == (wu) as nat);
        };
        assert(dec_scan(Seq::<u8>::empty(), (wu) as nat) == Some((wu) as nat));
        assert(wu == wi - wi % 85 + 84);
        assert(wi <= wu < wi + 0x100);
        lemma_trunc_bytes(wi, wu, 1);
}

#[verifier::rlimit(100)]
proof fn lemma_scan_truncated_p2(w: nat)
    requires
        w < 0x100000000,
        w % 0x10000 == 0,
    ensures
        ({
            let t = a85_digits(w).take(5 - 2) + Seq::new(2nat, |i: int| 117u8);
            &&& dec_scan(t, 0) is Some
            &&& dec_scan(t, 0)->Some_0 < 0x100000000
            &&& word_bytes(dec_scan(t, 0)->Some_0).take(4 - 2) == word_bytes(w).take(4 - 2)
        }),
{
    reveal(a85_digits);
    reveal(word_bytes);
    let d = a85_digits(w);
    let wi = w as int;
    assert(wi / 52200625 < 85) by {
        lemma_div_is_ordered(wi, 0xffffffff, 52200625);
    };
    lemma_small_mod((wi / 52200625) as nat, 85);
    lemma_mod_bound(wi / 614125, 85);
    lemma_mod_bound(wi / 7225, 85);
    let a1 = wi / 52200625;
    let a2 = wi / 614125;
    let a3 = wi / 7225;
    lemma_div_denominator(wi, 614125, 85);
    lemma_fundamental_div_mod(a2, 85);
    lemma_div_denominator(wi, 7225, 85);
    lemma_fundamental_div_mod(a3, 85);
    lemma_fundamental_div_mod(wi, 7225);
    lemma_mod_bound(wi, 7225);
    let t = d.take(5 - 2) + Seq::new(2nat, |i: int| 117u8);
    assert(t.len() == 5);
        assert(t =~= seq![d[0], d[1], d[2], 117u8, 117u8]);
        let s1 = seq![d[1], d[2], 117u8, 117u8];
        let s2 = seq![d[2], 117u8, 117u8];
        let s3 = seq![117u8, 117u8];
        let s4 = seq![117u8];
        assert(t.skip(1) =~= s1);
        assert(s1.skip(1) =~= s2);
        assert(s2.skip(1) =~= s3);
        assert(s3.skip(1) =~= s4);
        assert(s4.skip(1) =~= Seq::<u8>::empty());
        assert(dec_scan(t, 0) == dec_scan(s1, a1 as nat));
        assert(dec_scan(s1, a1 as nat) == dec_scan(s2, a2 as nat)) by {
            assert((a1 * 85 + (s1[0] - 33)) as nat == a2 as nat);
        };
        assert(dec_scan(s2, a2 as nat) == dec_scan(s3, a3 as nat)) by {
            assert((a2 * 85 + (s2[0] - 33)) as nat == a3 as nat);
        };
        let b1 = a3 * 85 + 84;
        assert(dec_scan(s3, a3 as nat) == dec_scan(s4, (b1) as nat)) by {
            assert((a3 * 85 + (s3[0] - 33)) as nat == (b1) as nat);
        };
        let wu = b1 * 85 + 84;
        assert(dec_scan(s4, (b1) as nat) == dec_scan(Seq::<u8>::empty(), (wu) as nat)) by {
            assert((b1 * 85 + (s4[0] - 33)) as nat == (wu) as nat);
        };
        assert(dec_scan(Seq::<u8>::empty(), (wu) as nat) == Some((wu) as nat));
        assert(wu == a3 * 7225 + 7224);
        assert(wu == wi - wi % 7225 + 7224);
        assert(wi <= wu < wi + 0x10000);
        lemma_trunc_bytes(wi, wu, 2);
}

#[verifier::rlimit(100)]
proof fn lemma_scan_truncated_p3(w: nat)
    requires
        w < 0x100000000,
        w % 0x1000000 == 0,
    ensures
        ({
            let t = a85_digits(w).take(5 - 3) + Seq::new(3nat, |i: int| 117u8);
            &&& dec_scan(t, 0) is Some
            &&& dec_scan(t, 0)->Some_0 < 0x100000000
            &&& word_bytes(dec_scan(t, 0)->Some_0).take(4 - 3) == word_bytes(w).take(4 - 3)
        }),
{
    reveal(a85_digits);
    reveal(word_bytes);
    let d = a85_digits(w);
    let wi = w as int;
    assert(wi / 52200625 < 85) by {
        lemma_div_is_ordered(wi, 0xffffffff, 52200625);
    };
    lemma_small_mod((wi / 52200625) as nat, 85);
    lemma_mod_bound(wi / 614125, 85);
    let a1 = wi / 52200625;
    let a2 = wi / 614125;
    lemma_div_denominator(wi, 614125, 85);
    lemma_fundamental_div_mod(a2, 85);
    lemma_fundamental_div_mod(wi, 614125);
    lemma_mod_bound(wi, 614125);
    let t = d.take(5 - 3) + Seq::new(3nat, |i: int| 117u8);
    assert(t.len() == 5);
        assert(t =~= seq![d[0], d[1], 117u8, 117u8, 117u8]);
        let s1 = seq![d[1], 117u8, 117u8, 117u8];
        let s2 = seq![117u8, 117u8, 117u8];
        let s3 = seq![117u8, 117u8];
        let s4 = seq![117u8];
        assert(t.skip(1) =~= s1);
        assert(s1.skip(1) =~= s2);
        assert(s2.skip(1) =~= s3);
        assert(s3.skip(1) =~= s4);
        assert(s4.skip(1) =~= Seq::<u8>::empty());
        assert(dec_scan(t, 0) == dec_scan(s1, a1 as nat));
        assert(dec_scan(s1, a1 as nat) == dec_scan(s2, a2 as nat)) by {
            assert((a1 * 85 + (s1[0] - 33)) as nat == a2 as nat);
        };
        let b1 = a2 * 85 + 84;
        assert(dec_scan(s2, a2 as nat) == dec_scan(s3, (b1) as nat)) by {
            assert((a2 * 85 + (s2[0] - 33)) as nat == (b1) as nat);
        };
        let b2 = b1 * 85 + 84;
        assert(dec_scan(s3, (b1) as nat) == dec_scan(s4, (b2) as nat)) by {
            assert((b1 * 85 + (s3[0] - 33)) as nat == (b2) as nat);
        };
        let wu = b2 * 85 + 84;
        assert(dec_scan(s4, (b2) as nat) == dec_scan(Seq::<u8>::empty(), (wu) as nat)) by {
            assert((b2 * 85 + (s4[0] - 33)) as nat == (wu) as nat);
        };
        assert(dec_scan(Seq::<u8>::empty(), (wu) as nat) == Some((wu) as nat));
        assert(wu == a2 * 614125 + 614124);
        assert(wu == wi - wi % 614125 + 614124);
        assert(wi <= wu < wi + 0x1000000);
        lemma_trunc_bytes(wi, wu, 3);
}

/// Scanning a truncated final group padded with `u` recovers a word
/// whose leading bytes agree with the original word.
proof fn lemma_scan_truncated(w: nat, p: int)
    requires
        1 <= p <= 3,
        w < 0x100000000,
        p == 1 ==> w % 0x100 == 0,
        p == 2 ==> w % 0x10000 == 0,
        p == 3 ==> w % 0x1000000 == 0,
    ensures
        ({
            let t = a85_digits(w).take(5 - p) + Seq::new(p as nat, |i: int| 117u8);
            &&& dec_scan(t, 0) is Some
            &&& dec_scan(t, 0)->Some_0 < 0x100000000
            &&& word_bytes(dec_scan(t, 0)->Some_0).take(4 - p) == word_bytes(w).take(4 - p)
        }),
{
    if p == 1 {
        lemma_scan_truncated_p1(w);
        assert(Seq::new(1nat, |i: int| 117u8) =~= Seq::new(p as nat, |i: int| 117u8));
    } else if p == 2 {
        lemma_scan_truncated_p2(w);
        assert(Seq::new(2nat, |i: int| 117u8) =~= Seq::new(p as nat, |i: int| 117u8));
    } else {
        lemma_scan_truncated_p3(w);
        assert(Seq::new(3nat, |i: int| 117u8) =~= Seq::new(p as nat, |i: int| 117u8));
    }
}

#[verifier::rlimit(100)]
proof fn lemma_round_trip_aligned(x: Seq<u8>)
    requires
        x.len() > 0,
        forall|k: int|
            0 <= k < zero_padded(x).len() / 4 ==> word_of(
                #[trigger] zero_padded(x).subrange(4 * k, 4 * k + 4),
            ) != 0,
        x.len() % 4 == 0,
    ensures
        a85_encodable(x),
        a85_decoded(a85_encoded(x)) == Some(x),
{
    let b = zero_padded(x);
    let n = x.len() as int;
    let p = a85_zero_pad(x.len()) as int;
    assert(b.len() == n + p);
    assert(b.len() % 4 == 0) by {
        if n % 4 == 0 {
        } else {
            assert(p == 4 - n % 4);
            lemma_mod_adds(n, p, 4);
        }
    };
    let g = b.len() as int / 4;
    assert(g >= 1);
    assert(p == 0);
        assert(b =~= x);
        lemma_dec_of_groups(x, Seq::<u8>::empty());
        let full = a85_groups(b);
        assert(full.len() == 5 * g);
        assert(a85_encodable(x));
        let enc = a85_encoded(x);
        assert(enc =~= full);
        assert(a85_u_pad(enc.len()) == 0) by {
            lemma_mod_multiples_basic(g, 5);
        };
        assert(u_padded(enc) =~= full);
        assert(full + Seq::<u8>::empty() =~= full);
        assert(a85_dec_groups(Seq::<u8>::empty()) == Some(Seq::<u8>::empty()));
        assert(a85_dec_groups(full) == Some(x + Seq::<u8>::empty()));
        assert(x + Seq::<u8>::empty() =~= x);
        assert(a85_decoded(enc) == Some(x.take(x.len() as int)));
        assert(x.take(x.len() as int) =~= x);
}

#[verifier::rlimit(100)]
proof fn lemma_round_trip_tail(x: Seq<u8>)
    requires
        x.len() > 0,
        forall|k: int|
            0 <= k < zero_padded(x).len() / 4 ==> word_of(
                #[trigger] zero_padded(x).subrange(4 * k, 4 * k + 4),
            ) != 0,
        x.len() % 4 != 0,
    ensures
        a85_encodable(x),
        a85_decoded(a85_encoded(x)) == Some(x),
{
    let b = zero_padded(x);
    let n = x.len() as int;
    let p = a85_zero_pad(x.len()) as int;
    assert(b.len() == n + p);
    assert(b.len() % 4 == 0) by {
        if n % 4 == 0 {
        } else {
            assert(p == 4 - n % 4);
            lemma_mod_adds(n, p, 4);
        }
    };
    let g = b.len() as int / 4;
    assert(g >= 1);
    assert(1 <= p <= 3);
        let front = b.take(4 * (g - 1));
        let last = b.subrange(4 * (g - 1), 4 * g);
        assert(b =~= front + last);
        let w = word_of(last);
        assert(w != 0) by {
            assert(word_of(b.subrange(4 * (g - 1), 4 * (g - 1) + 4)) != 0);
        };
        lemma_word_bytes_of(last);
        assert(forall|j: int| n <= j < b.len() ==> b[j] == 0);
        assert(last.len() == 4);
        assert(4 * g - p == n);
        assert(forall|j: int| 4 - p <= j < 4 ==> last[j] == 0);
        assert(p == 1 ==> (w as int) % 0x100 == 0) by {
            if p == 1 {
                assert(last[3] == 0);
                assert(w as int == 0x100 * ((last[0] as int) * 0x10000 + (last[1] as int) * 0x100
                    + (last[2] as int)));
                lemma_mod_multiples_basic(
                    (last[0] as int) * 0x10000 + (last[1] as int) * 0x100 + (last[2] as int),
                    0x100,
                );
            }
        };
        assert(p == 2 ==> (w as int) % 0x10000 == 0) by {
            if p == 2 {
                assert(last[2] == 0 && last[3] == 0);
                assert(w as int == 0x10000 * ((last[0] as int) * 0x100 + (last[1] as int)));
                lemma_mod_multiples_basic((last[0] as int) * 0x100 + (last[1] as int), 0x10000);
            }
        };
        assert(p == 3 ==> (w as int) % 0x1000000 == 0) by {
            if p == 3 {
                assert(last[1] == 0 && last[2] == 0 && last[3] == 0);
                assert(w as int == 0x1000000 * (last[0] as int));
                lemma_mod_multiples_basic(last[0] as int, 0x1000000);
            }
        };
        assert(front.len() % 4 == 0) by {
            lemma_mod_multiples_basic(g - 1, 4);
        };
        assert(forall|k: int|
            0 <= k < front.len() / 4 ==> word_of(#[trigger] front.subrange(4 * k, 4 * k + 4))
                != 0) by {
            assert forall|k: int| 0 <= k < front.len() / 4 implies word_of(
                #[trigger] front.subrange(4 * k, 4 * k + 4),
            ) != 0 by {
                assert(front.subrange(4 * k, 4 * k + 4) =~= b.subrange(4 * k, 4 * k + 4));
                assert(word_of(b.subrange(4 * k, 4 * k + 4)) != 0);
            }
        };
        lemma_groups_concat(front, last);
        let d = a85_digits(w);
        assert(d.len() == 5) by {
            reveal(a85_digits);
        };
        assert(a85_groups(last) == d + a85_groups(Seq::<u8>::empty())) by {
            assert(last.take(4) =~= last);
            assert(last.skip(4) =~= Seq::<u8>::empty());
        };
        assert(d + Seq::<u8>::empty() =~= d);
        assert(a85_groups(b) == a85_groups(front) + d);
        lemma_dec_of_groups(front, Seq::<u8>::empty());
        let fl = a85_groups(front).len() as int;
        assert(fl == 5 * (g - 1));
        let full = a85_groups(b);
        assert(full.len() == 5 * g) by {
            assert(full.len() == fl + 5);
        };
        assert(a85_encodable(x));
        let enc = a85_encoded(x);
        assert(enc =~= a85_groups(front) + d.take(5 - p));
        assert(enc.len() == 5 * g - p);
        assert(a85_u_pad(enc.len()) == p) by {
            lemma_fundamental_div_mod_converse(5 * g - p, 5, g - 1, 5 - p);
            assert(enc.len() as int % 5 == 5 - p);
        };
        let t = d.take(5 - p) + Seq::new(p as nat, |i: int| 117u8);
        assert(u_padded(enc) =~= a85_groups(front) + t);
        lemma_scan_truncated(w, p);
        let wu = dec_scan(t, 0)->Some_0;
        assert(t.len() == 5);
        assert(a85_dec_groups(t) == Some(word_bytes(wu % 0x100000000) + Seq::<u8>::empty())) by {
            assert(t.take(5) =~= t);
            assert(t.skip(5) =~= Seq::<u8>::empty());
        };
        lemma_small_mod(wu, 0x100000000);
        assert(word_bytes(wu) + Seq::<u8>::empty() =~= word_bytes(wu));
        lemma_dec_of_groups(front, t);
        assert(a85_dec_groups(u_padded(enc)) == Some(front + word_bytes(wu)));
        let out = front + word_bytes(wu);
        assert(out.len() == 4 * g) by {
            reveal(word_bytes);
        };
        assert(a85_decoded(enc) == Some(out.take(4 * g - p)));
        assert(out.take(4 * g - p) =~= front + word_bytes(wu).take(4 - p)) by {
            reveal(word_bytes);
        };
        assert(word_bytes(w).take(4 - p) =~= last.take(4 - p));
        assert(front + last.take(4 - p) =~= x);
        assert(a85_decoded(enc) == Some(x));
}

/// Round trip: decoding an encoded sequence recovers it exactly,
/// provided no four-byte group of the zero-padded input is entirely
/// zero (such a group encodes as `z`, which decoding does not realign).
pub proof fn lemma_encode_decode_round_trip(x: Seq<u8>)
    requires
        x.len() > 0,
        forall|k: int|
            0 <= k < zero_padded(x).len() / 4 ==> word_of(
                #[trigger] zero_padded(x).subrange(4 * k, 4 * k + 4),
            ) != 0,
    ensures
        a85_encodable(x),
        a85_decoded(a85_encoded(x)) == Some(x),
{
    if x.len() % 4 == 0 {
        lemma_round_trip_aligned(x);
    } else {
        lemma_round_trip_tail(x);
    }
}

} // verus!
