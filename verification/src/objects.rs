//! The PDF object writer: object identifiers, byte offsets, the
//! cross-reference table and the final file assembly.
//!
//! Objects are written in the same order their identifiers are
//! assigned, so the offset list doubles as the cross-reference table.

use crate::ascii85;
use crate::numfmt::{dec_digits, dec_pad10, fmt_u64, fmt_u64_pad10};
use crate::zlib;
use vstd::prelude::*;
use vstd::seq_lib::*;
use vstd::slice::slice_to_vec;
use vstd::string::StrSliceExecFns;
use vstd::utf8::is_ascii_chars;

verus! {

/// The bytes of an ASCII text, one byte per character.
pub open spec fn ascii_of(s: Seq<char>) -> Seq<u8> {
    Seq::new(s.len(), |i: int| s[i] as u8)
}

pub open spec fn sp_header() -> Seq<u8> {
    seq![37u8, 80, 68, 70, 45, 49, 46, 52, 10, 37, 147, 140, 139, 158, 32, 87, 65, 83, 77, 45, 80, 68, 70, 32, 108, 105, 98, 114, 97, 114, 121, 10]
}

pub open spec fn sp_obj_a() -> Seq<u8> {
    seq![32u8, 48, 32, 111, 98, 106, 10, 60, 60, 10]
}

pub open spec fn sp_obj_b() -> Seq<u8> {
    seq![10u8, 62, 62, 10, 101, 110, 100, 111, 98, 106, 10]
}

pub open spec fn sp_obj_sp() -> Seq<u8> {
    seq![32u8, 48, 32, 111, 98, 106]
}

pub open spec fn sp_slash() -> Seq<u8> {
    seq![47u8]
}

pub open spec fn sp_space() -> Seq<u8> {
    seq![32u8]
}

pub open spec fn sp_r_sp() -> Seq<u8> {
    seq![32u8, 48, 32, 82, 32]
}

pub open spec fn sp_r_nosp() -> Seq<u8> {
    seq![32u8, 48, 32, 82]
}

pub open spec fn sp_basefont() -> Seq<u8> {
    seq![47u8, 66, 97, 115, 101, 70, 111, 110, 116, 32, 47]
}

pub open spec fn sp_encoding() -> Seq<u8> {
    seq![32u8, 47, 69, 110, 99, 111, 100, 105, 110, 103, 32, 47, 87, 105, 110, 65, 110, 115, 105, 69, 110, 99, 111, 100, 105, 110, 103, 32, 47, 78, 97, 109, 101, 32, 47]
}

pub open spec fn sp_subtype() -> Seq<u8> {
    seq![32u8, 47, 83, 117, 98, 116, 121, 112, 101, 32, 47, 84, 121, 112, 101, 49, 32, 47, 84, 121, 112, 101, 32, 47, 70, 111, 110, 116]
}

pub open spec fn sp_catalog() -> Seq<u8> {
    seq![47u8, 84, 121, 112, 101, 32, 47, 67, 97, 116, 97, 108, 111, 103, 32, 47, 80, 97, 103, 101, 115, 32]
}

pub open spec fn sp_pages_a() -> Seq<u8> {
    seq![47u8, 84, 121, 112, 101, 32, 47, 80, 97, 103, 101, 115, 32, 47, 75, 105, 100, 115, 32, 91, 32]
}

pub open spec fn sp_pages_b() -> Seq<u8> {
    seq![93u8, 32, 47, 67, 111, 117, 110, 116, 32]
}

pub open spec fn sp_img_a() -> Seq<u8> {
    seq![32u8, 48, 32, 111, 98, 106, 10, 60, 60, 32, 32, 10, 47, 84, 121, 112, 101, 32, 47, 88, 79, 98, 106, 101, 99, 116, 10, 47, 83, 117, 98, 116, 121, 112, 101, 32, 47, 73, 109, 97, 103, 101, 32, 10, 47, 72, 101, 105, 103, 104, 116, 32]
}

pub open spec fn sp_img_b() -> Seq<u8> {
    seq![32u8, 10, 47, 87, 105, 100, 116, 104, 32]
}

pub open spec fn sp_img_c() -> Seq<u8> {
    seq![32u8, 10, 47, 67, 111, 108, 111, 114, 83, 112, 97, 99, 101, 32, 47, 68, 101, 118, 105, 99, 101, 82, 71, 66, 10, 47, 66, 105, 116, 115, 80, 101, 114, 67, 111, 109, 112, 111, 110, 101, 110, 116, 32, 56, 10, 47, 70, 105, 108, 116, 101, 114, 32, 91, 47, 65, 83, 67, 73, 73, 56, 53, 68, 101, 99, 111, 100, 101, 32, 47, 68, 67, 84, 68, 101, 99, 111, 100, 101, 93, 10, 47, 76, 101, 110, 103, 116, 104, 32]
}

pub open spec fn sp_img_d() -> Seq<u8> {
    seq![32u8, 10, 62, 62, 10, 115, 116, 114, 101, 97, 109, 10]
}

pub open spec fn sp_stream_end() -> Seq<u8> {
    seq![126u8, 62, 101, 110, 100, 115, 116, 114, 101, 97, 109, 10, 101, 110, 100, 111, 98, 106, 10]
}

pub open spec fn sp_pg_a() -> Seq<u8> {
    seq![47u8, 84, 121, 112, 101, 32, 47, 80, 97, 103, 101, 32, 10, 47, 80, 97, 114, 101, 110, 116, 32]
}

pub open spec fn sp_pg_b() -> Seq<u8> {
    seq![32u8, 48, 32, 82, 32, 10, 47, 82, 101, 115, 111, 117, 114, 99, 101, 115, 32, 60, 60, 10, 32, 32, 32, 32, 47, 70, 111, 110, 116, 32, 49, 32, 48, 32, 82, 32, 10, 32, 32, 32, 32, 47, 80, 114, 111, 99, 83, 101, 116, 32, 91, 32, 47, 80, 68, 70, 32, 47, 84, 101, 120, 116, 32]
}

pub open spec fn sp_imagec() -> Seq<u8> {
    seq![47u8, 73, 109, 97, 103, 101, 67]
}

pub open spec fn sp_pg_c() -> Seq<u8> {
    seq![93u8, 32, 10, 32, 32, 32, 32]
}

pub open spec fn sp_pg_d() -> Seq<u8> {
    seq![10u8, 62, 62, 32, 10, 47, 77, 101, 100, 105, 97, 66, 111, 120, 32, 91, 48, 32, 48, 32]
}

pub open spec fn sp_pg_e() -> Seq<u8> {
    seq![93u8, 32, 10, 47, 67, 111, 110, 116, 101, 110, 116, 115, 32]
}

pub open spec fn sp_pg_f() -> Seq<u8> {
    seq![32u8, 48, 32, 82, 32]
}

pub open spec fn sp_xobj_a() -> Seq<u8> {
    seq![47u8, 88, 79, 98, 106, 101, 99, 116, 32, 60, 60, 10]
}

pub open spec fn sp_xobj_b() -> Seq<u8> {
    seq![10u8, 62, 62]
}

pub open spec fn sp_im() -> Seq<u8> {
    seq![47u8, 73, 109]
}

pub open spec fn sp_ct_a() -> Seq<u8> {
    seq![32u8, 48, 32, 111, 98, 106, 10, 60, 60, 10, 47, 70, 105, 108, 116, 101, 114, 32, 91, 47, 65, 83, 67, 73, 73, 56, 53, 68, 101, 99, 111, 100, 101, 32, 47, 70, 108, 97, 116, 101, 68, 101, 99, 111, 100, 101, 93, 32, 47, 76, 101, 110, 103, 116, 104, 32]
}

pub open spec fn sp_ct_b() -> Seq<u8> {
    seq![10u8, 62, 62, 10, 115, 116, 114, 101, 97, 109, 10]
}

pub open spec fn sp_tr_a() -> Seq<u8> {
    seq![120u8, 114, 101, 102, 10, 48, 32]
}

pub open spec fn sp_tr_b() -> Seq<u8> {
    seq![10u8, 48, 48, 48, 48, 48, 48, 48, 48, 48, 48, 32, 54, 53, 53, 51, 53, 32, 102, 10]
}

pub open spec fn sp_xr_ent() -> Seq<u8> {
    seq![32u8, 48, 48, 48, 48, 48, 32, 110, 32, 10]
}

pub open spec fn sp_tr_c() -> Seq<u8> {
    seq![116u8, 114, 97, 105, 108, 101, 114, 32, 60, 60, 47, 83, 105, 122, 101, 32]
}

pub open spec fn sp_tr_d() -> Seq<u8> {
    seq![32u8, 47, 82, 111, 111, 116, 32]
}

pub open spec fn sp_tr_e() -> Seq<u8> {
    seq![32u8, 48, 32, 82, 62, 62, 10, 115, 116, 97, 114, 116, 120, 114, 101, 102, 10]
}

pub open spec fn sp_tr_f() -> Seq<u8> {
    seq![10u8, 37, 37, 69, 79, 70, 10]
}


/// The opening bytes of the object with identifier `id`.
pub open spec fn sp_obj_start(id: nat) -> Seq<u8> {
    dec_digits(id) + sp_obj_sp()
}

/// A whole wrapped object: header, dictionary body, trailer.
pub open spec fn sp_obj_wrap(id: nat, text: Seq<u8>) -> Seq<u8> {
    dec_digits(id) + sp_obj_a() + text + sp_obj_b()
}

/// Append bytes to the output buffer.
fn push_bytes(out: &mut Vec<u8>, bs: &[u8])
    ensures
        final(out)@ == old(out)@ + bs@,
{
    out.extend_from_slice(bs);
}

/// Append the decimal digits of `n`.
fn push_dec(out: &mut Vec<u8>, n: u64)
    ensures
        final(out)@ == old(out)@ + dec_digits(n as nat),
{
    let d = fmt_u64(n);
    out.extend_from_slice(d.as_slice());
}

/// Append the bytes of an ASCII text.
fn push_ascii(out: &mut Vec<u8>, s: &str)
    requires
        is_ascii_chars(s@),
    ensures
        final(out)@ == old(out)@ + ascii_of(s@),
{
    broadcast use vstd::string::is_ascii_spec_bytes;

    proof {
        assert(vstd::string::is_ascii(s));
    }
    let v = s.as_bytes_vec();
    proof {
        assert(v@ =~= ascii_of(s@));
    }
    out.extend_from_slice(v.as_slice());
}

fn push_header(out: &mut Vec<u8>)
    ensures
        final(out)@ == old(out)@ + sp_header(),
{
    let lit: [u8; 32] = [37u8, 80, 68, 70, 45, 49, 46, 52, 10, 37, 147, 140, 139, 158, 32, 87, 65, 83, 77, 45, 80, 68, 70, 32, 108, 105, 98, 114, 97, 114, 121, 10];
    out.extend_from_slice(lit.as_slice());
    proof {
        assert(lit@ =~= sp_header());
    }
}

fn push_obj_a(out: &mut Vec<u8>)
    ensures
        final(out)@ == old(out)@ + sp_obj_a(),
{
    let lit: [u8; 10] = [32u8, 48, 32, 111, 98, 106, 10, 60, 60, 10];
    out.extend_from_slice(lit.as_slice());
    proof {
        assert(lit@ =~= sp_obj_a());
    }
}

fn push_obj_b(out: &mut Vec<u8>)
    ensures
        final(out)@ == old(out)@ + sp_obj_b(),
{
    let lit: [u8; 11] = [10u8, 62, 62, 10, 101, 110, 100, 111, 98, 106, 10];
    out.extend_from_slice(lit.as_slice());
    proof {
        assert(lit@ =~= sp_obj_b());
    }
}

fn push_obj_sp(out: &mut Vec<u8>)
    ensures
        final(out)@ == old(out)@ + sp_obj_sp(),
{
    let lit: [u8; 6] = [32u8, 48, 32, 111, 98, 106];
    out.extend_from_slice(lit.as_slice());
    proof {
        assert(lit@ =~= sp_obj_sp());
    }
}

fn push_slash(out: &mut Vec<u8>)
    ensures
        final(out)@ == old(out)@ + sp_slash(),
{
    let lit: [u8; 1] = [47u8];
    out.extend_from_slice(lit.as_slice());
    proof {
        assert(lit@ =~= sp_slash());
    }
}

fn push_space(out: &mut Vec<u8>)
    ensures
        final(out)@ == old(out)@ + sp_space(),
{
    let lit: [u8; 1] = [32u8];
    out.extend_from_slice(lit.as_slice());
    proof {
        assert(lit@ =~= sp_space());
    }
}

fn push_r_sp(out: &mut Vec<u8>)
    ensures
        final(out)@ == old(out)@ + sp_r_sp(),
{
    let lit: [u8; 5] = [32u8, 48, 32, 82, 32];
    out.extend_from_slice(lit.as_slice());
    proof {
        assert(lit@ =~= sp_r_sp());
    }
}

fn push_r_nosp(out: &mut Vec<u8>)
    ensures
        final(out)@ == old(out)@ + sp_r_nosp(),
{
    let lit: [u8; 4] = [32u8, 48, 32, 82];
    out.extend_from_slice(lit.as_slice());
    proof {
        assert(lit@ =~= sp_r_nosp());
    }
}

fn push_basefont(out: &mut Vec<u8>)
    ensures
        final(out)@ == old(out)@ + sp_basefont(),
{
    let lit: [u8; 11] = [47u8, 66, 97, 115, 101, 70, 111, 110, 116, 32, 47];
    out.extend_from_slice(lit.as_slice());
    proof {
        assert(lit@ =~= sp_basefont());
    }
}

fn push_encoding(out: &mut Vec<u8>)
    ensures
        final(out)@ == old(out)@ + sp_encoding(),
{
    let lit: [u8; 35] = [32u8, 47, 69, 110, 99, 111, 100, 105, 110, 103, 32, 47, 87, 105, 110, 65, 110, 115, 105, 69, 110, 99, 111, 100, 105, 110, 103, 32, 47, 78, 97, 109, 101, 32, 47];
    out.extend_from_slice(lit.as_slice());
    proof {
        assert(lit@ =~= sp_encoding());
    }
}

fn push_subtype(out: &mut Vec<u8>)
    ensures
        final(out)@ == old(out)@ + sp_subtype(),
{
    let lit: [u8; 28] = [32u8, 47, 83, 117, 98, 116, 121, 112, 101, 32, 47, 84, 121, 112, 101, 49, 32, 47, 84, 121, 112, 101, 32, 47, 70, 111, 110, 116];
    out.extend_from_slice(lit.as_slice());
    proof {
        assert(lit@ =~= sp_subtype());
    }
}

fn push_catalog(out: &mut Vec<u8>)
    ensures
        final(out)@ == old(out)@ + sp_catalog(),
{
    let lit: [u8; 22] = [47u8, 84, 121, 112, 101, 32, 47, 67, 97, 116, 97, 108, 111, 103, 32, 47, 80, 97, 103, 101, 115, 32];
    out.extend_from_slice(lit.as_slice());
    proof {
        assert(lit@ =~= sp_catalog());
    }
}

fn push_pages_a(out: &mut Vec<u8>)
    ensures
        final(out)@ == old(out)@ + sp_pages_a(),
{
    let lit: [u8; 21] = [47u8, 84, 121, 112, 101, 32, 47, 80, 97, 103, 101, 115, 32, 47, 75, 105, 100, 115, 32, 91, 32];
    out.extend_from_slice(lit.as_slice());
    proof {
        assert(lit@ =~= sp_pages_a());
    }
}

fn push_pages_b(out: &mut Vec<u8>)
    ensures
        final(out)@ == old(out)@ + sp_pages_b(),
{
    let lit: [u8; 9] = [93u8, 32, 47, 67, 111, 117, 110, 116, 32];
    out.extend_from_slice(lit.as_slice());
    proof {
        assert(lit@ =~= sp_pages_b());
    }
}

fn push_img_a(out: &mut Vec<u8>)
    ensures
        final(out)@ == old(out)@ + sp_img_a(),
{
    let lit: [u8; 52] = [32u8, 48, 32, 111, 98, 106, 10, 60, 60, 32, 32, 10, 47, 84, 121, 112, 101, 32, 47, 88, 79, 98, 106, 101, 99, 116, 10, 47, 83, 117, 98, 116, 121, 112, 101, 32, 47, 73, 109, 97, 103, 101, 32, 10, 47, 72, 101, 105, 103, 104, 116, 32];
    out.extend_from_slice(lit.as_slice());
    proof {
        assert(lit@ =~= sp_img_a());
    }
}

fn push_img_b(out: &mut Vec<u8>)
    ensures
        final(out)@ == old(out)@ + sp_img_b(),
{
    let lit: [u8; 9] = [32u8, 10, 47, 87, 105, 100, 116, 104, 32];
    out.extend_from_slice(lit.as_slice());
    proof {
        assert(lit@ =~= sp_img_b());
    }
}

fn push_img_c(out: &mut Vec<u8>)
    ensures
        final(out)@ == old(out)@ + sp_img_c(),
{
    let lit: [u8; 89] = [32u8, 10, 47, 67, 111, 108, 111, 114, 83, 112, 97, 99, 101, 32, 47, 68, 101, 118, 105, 99, 101, 82, 71, 66, 10, 47, 66, 105, 116, 115, 80, 101, 114, 67, 111, 109, 112, 111, 110, 101, 110, 116, 32, 56, 10, 47, 70, 105, 108, 116, 101, 114, 32, 91, 47, 65, 83, 67, 73, 73, 56, 53, 68, 101, 99, 111, 100, 101, 32, 47, 68, 67, 84, 68, 101, 99, 111, 100, 101, 93, 10, 47, 76, 101, 110, 103, 116, 104, 32];
    out.extend_from_slice(lit.as_slice());
    proof {
        assert(lit@ =~= sp_img_c());
    }
}

fn push_img_d(out: &mut Vec<u8>)
    ensures
        final(out)@ == old(out)@ + sp_img_d(),
{
    let lit: [u8; 12] = [32u8, 10, 62, 62, 10, 115, 116, 114, 101, 97, 109, 10];
    out.extend_from_slice(lit.as_slice());
    proof {
        assert(lit@ =~= sp_img_d());
    }
}

fn push_stream_end(out: &mut Vec<u8>)
    ensures
        final(out)@ == old(out)@ + sp_stream_end(),
{
    let lit: [u8; 19] = [126u8, 62, 101, 110, 100, 115, 116, 114, 101, 97, 109, 10, 101, 110, 100, 111, 98, 106, 10];
    out.extend_from_slice(lit.as_slice());
    proof {
        assert(lit@ =~= sp_stream_end());
    }
}

fn push_pg_a(out: &mut Vec<u8>)
    ensures
        final(out)@ == old(out)@ + sp_pg_a(),
{
    let lit: [u8; 21] = [47u8, 84, 121, 112, 101, 32, 47, 80, 97, 103, 101, 32, 10, 47, 80, 97, 114, 101, 110, 116, 32];
    out.extend_from_slice(lit.as_slice());
    proof {
        assert(lit@ =~= sp_pg_a());
    }
}

fn push_pg_b(out: &mut Vec<u8>)
    ensures
        final(out)@ == old(out)@ + sp_pg_b(),
{
    let lit: [u8; 63] = [32u8, 48, 32, 82, 32, 10, 47, 82, 101, 115, 111, 117, 114, 99, 101, 115, 32, 60, 60, 10, 32, 32, 32, 32, 47, 70, 111, 110, 116, 32, 49, 32, 48, 32, 82, 32, 10, 32, 32, 32, 32, 47, 80, 114, 111, 99, 83, 101, 116, 32, 91, 32, 47, 80, 68, 70, 32, 47, 84, 101, 120, 116, 32];
    out.extend_from_slice(lit.as_slice());
    proof {
        assert(lit@ =~= sp_pg_b());
    }
}

fn push_imagec(out: &mut Vec<u8>)
    ensures
        final(out)@ == old(out)@ + sp_imagec(),
{
    let lit: [u8; 7] = [47u8, 73, 109, 97, 103, 101, 67];
    out.extend_from_slice(lit.as_slice());
    proof {
        assert(lit@ =~= sp_imagec());
    }
}

fn push_pg_c(out: &mut Vec<u8>)
    ensures
        final(out)@ == old(out)@ + sp_pg_c(),
{
    let lit: [u8; 7] = [93u8, 32, 10, 32, 32, 32, 32];
    out.extend_from_slice(lit.as_slice());
    proof {
        assert(lit@ =~= sp_pg_c());
    }
}

fn push_pg_d(out: &mut Vec<u8>)
    ensures
        final(out)@ == old(out)@ + sp_pg_d(),
{
    let lit: [u8; 20] = [10u8, 62, 62, 32, 10, 47, 77, 101, 100, 105, 97, 66, 111, 120, 32, 91, 48, 32, 48, 32];
    out.extend_from_slice(lit.as_slice());
    proof {
        assert(lit@ =~= sp_pg_d());
    }
}

fn push_pg_e(out: &mut Vec<u8>)
    ensures
        final(out)@ == old(out)@ + sp_pg_e(),
{
    let lit: [u8; 13] = [93u8, 32, 10, 47, 67, 111, 110, 116, 101, 110, 116, 115, 32];
    out.extend_from_slice(lit.as_slice());
    proof {
        assert(lit@ =~= sp_pg_e());
    }
}

fn push_pg_f(out: &mut Vec<u8>)
    ensures
        final(out)@ == old(out)@ + sp_pg_f(),
{
    let lit: [u8; 5] = [32u8, 48, 32, 82, 32];
    out.extend_from_slice(lit.as_slice());
    proof {
        assert(lit@ =~= sp_pg_f());
    }
}

fn push_xobj_a(out: &mut Vec<u8>)
    ensures
        final(out)@ == old(out)@ + sp_xobj_a(),
{
    let lit: [u8; 12] = [47u8, 88, 79, 98, 106, 101, 99, 116, 32, 60, 60, 10];
    out.extend_from_slice(lit.as_slice());
    proof {
        assert(lit@ =~= sp_xobj_a());
    }
}

fn push_xobj_b(out: &mut Vec<u8>)
    ensures
        final(out)@ == old(out)@ + sp_xobj_b(),
{
    let lit: [u8; 3] = [10u8, 62, 62];
    out.extend_from_slice(lit.as_slice());
    proof {
        assert(lit@ =~= sp_xobj_b());
    }
}

fn push_im(out: &mut Vec<u8>)
    ensures
        final(out)@ == old(out)@ + sp_im(),
{
    let lit: [u8; 3] = [47u8, 73, 109];
    out.extend_from_slice(lit.as_slice());
    proof {
        assert(lit@ =~= sp_im());
    }
}

fn push_ct_a(out: &mut Vec<u8>)
    ensures
        final(out)@ == old(out)@ + sp_ct_a(),
{
    let lit: [u8; 56] = [32u8, 48, 32, 111, 98, 106, 10, 60, 60, 10, 47, 70, 105, 108, 116, 101, 114, 32, 91, 47, 65, 83, 67, 73, 73, 56, 53, 68, 101, 99, 111, 100, 101, 32, 47, 70, 108, 97, 116, 101, 68, 101, 99, 111, 100, 101, 93, 32, 47, 76, 101, 110, 103, 116, 104, 32];
    out.extend_from_slice(lit.as_slice());
    proof {
        assert(lit@ =~= sp_ct_a());
    }
}

fn push_ct_b(out: &mut Vec<u8>)
    ensures
        final(out)@ == old(out)@ + sp_ct_b(),
{
    let lit: [u8; 11] = [10u8, 62, 62, 10, 115, 116, 114, 101, 97, 109, 10];
    out.extend_from_slice(lit.as_slice());
    proof {
        assert(lit@ =~= sp_ct_b());
    }
}

fn push_tr_a(out: &mut Vec<u8>)
    ensures
        final(out)@ == old(out)@ + sp_tr_a(),
{
    let lit: [u8; 7] = [120u8, 114, 101, 102, 10, 48, 32];
    out.extend_from_slice(lit.as_slice());
    proof {
        assert(lit@ =~= sp_tr_a());
    }
}

fn push_tr_b(out: &mut Vec<u8>)
    ensures
        final(out)@ == old(out)@ + sp_tr_b(),
{
    let lit: [u8; 20] = [10u8, 48, 48, 48, 48, 48, 48, 48, 48, 48, 48, 32, 54, 53, 53, 51, 53, 32, 102, 10];
    out.extend_from_slice(lit.as_slice());
    proof {
        assert(lit@ =~= sp_tr_b());
    }
}

fn push_xr_ent(out: &mut Vec<u8>)
    ensures
        final(out)@ == old(out)@ + sp_xr_ent(),
{
    let lit: [u8; 10] = [32u8, 48, 48, 48, 48, 48, 32, 110, 32, 10];
    out.extend_from_slice(lit.as_slice());
    proof {
        assert(lit@ =~= sp_xr_ent());
    }
}

fn push_tr_c(out: &mut Vec<u8>)
    ensures
        final(out)@ == old(out)@ + sp_tr_c(),
{
    let lit: [u8; 16] = [116u8, 114, 97, 105, 108, 101, 114, 32, 60, 60, 47, 83, 105, 122, 101, 32];
    out.extend_from_slice(lit.as_slice());
    proof {
        assert(lit@ =~= sp_tr_c());
    }
}

fn push_tr_d(out: &mut Vec<u8>)
    ensures
        final(out)@ == old(out)@ + sp_tr_d(),
{
    let lit: [u8; 7] = [32u8, 47, 82, 111, 111, 116, 32];
    out.extend_from_slice(lit.as_slice());
    proof {
        assert(lit@ =~= sp_tr_d());
    }
}

fn push_tr_e(out: &mut Vec<u8>)
    ensures
        final(out)@ == old(out)@ + sp_tr_e(),
{
    let lit: [u8; 17] = [32u8, 48, 32, 82, 62, 62, 10, 115, 116, 97, 114, 116, 120, 114, 101, 102, 10];
    out.extend_from_slice(lit.as_slice());
    proof {
        assert(lit@ =~= sp_tr_e());
    }
}

fn push_tr_f(out: &mut Vec<u8>)
    ensures
        final(out)@ == old(out)@ + sp_tr_f(),
{
    let lit: [u8; 7] = [10u8, 37, 37, 69, 79, 70, 10];
    out.extend_from_slice(lit.as_slice());
    proof {
        assert(lit@ =~= sp_tr_f());
    }
}

/// A font handle as the writer needs it: the face name written into
/// the font object, the short resource name, and an identity index
/// used to deduplicate fonts.
#[derive(Debug, Clone)]
pub struct Font {
    pub name: String,
    pub ref_name: String,
    pub index: u16,
}

impl Font {
    /// Both names consist of ASCII characters, so they can be embedded
    /// into the byte stream verbatim.
    pub open spec fn wf(self) -> bool {
        is_ascii_chars(self.name@) && is_ascii_chars(self.ref_name@)
    }

    pub fn new(name: String, ref_name: String, index: u16) -> (r: Font)
        requires
            is_ascii_chars(name@),
            is_ascii_chars(ref_name@),
        ensures
            r.name == name && r.ref_name == ref_name && r.index == index,
            r.wf(),
    {
        Font { name, ref_name, index }
    }

    /// The face name, as written after `/BaseFont`.
    pub fn get_name(&self) -> (r: &String)
        ensures
            r == &self.name,
    {
        &self.name
    }

    /// The short resource name, such as `F1`.
    pub fn get_ref(&self) -> (r: &String)
        ensures
            r == &self.ref_name,
    {
        &self.ref_name
    }
}

/// An image to be embedded: JPEG bytes and pixel dimensions.
#[derive(Debug, Clone)]
pub struct PDFImage {
    pub width: u32,
    pub height: u32,
    pub contents: Vec<u8>,
    pub image_id: u16,
}

impl PDFImage {
    pub fn new(image_id: u16, width: u32, height: u32, bytes: &[u8]) -> (r: PDFImage)
        ensures
            r.image_id == image_id && r.width == width && r.height == height,
            r.contents@ == bytes@,
    {
        PDFImage { width, height, contents: slice_to_vec(bytes), image_id }
    }

    /// The resource name of the image, such as `Im1`.
    pub fn get_uid(&self) -> (r: Vec<u8>)
        ensures
            r@ == sp_im() + dec_digits(self.image_id as nat),
    {
        let mut out: Vec<u8> = Vec::new();
        push_im(&mut out);
        push_dec(&mut out, self.image_id as u64);
        proof {
            assert(Seq::<u8>::empty() + sp_im() =~= sp_im());
        }
        out
    }
}

/// One finished page: its operator stream and the images it uses.
#[derive(Debug, Clone)]
pub struct PDFPage {
    pub contents: Vec<u8>,
    pub images: Vec<PDFImage>,
}

impl PDFPage {
    pub fn new() -> (r: PDFPage)
        ensures
            r.contents@ == Seq::<u8>::empty(),
            r.images@ == Seq::<PDFImage>::empty(),
    {
        PDFPage { contents: Vec::new(), images: Vec::new() }
    }

    pub fn set_contents(&mut self, input: &[u8])
        ensures
            final(self).contents@ == input@,
            final(self).images == old(self).images,
    {
        self.contents = slice_to_vec(input);
    }

    pub fn set_images(&mut self, input: Vec<PDFImage>)
        ensures
            final(self).images@ == input@,
            final(self).contents == old(self).contents,
    {
        self.images = input;
    }
}

/// One serialized object: its complete bytes, starting with its
/// identifier.
pub struct PDFObject {
    contents: Vec<u8>,
    id: u16,
    text: Ghost<Seq<u8>>,
}

impl PDFObject {
    pub closed spec fn spec_contents(self) -> Seq<u8> {
        self.contents@
    }

    pub closed spec fn spec_id(self) -> nat {
        self.id as nat
    }

    /// The object's bytes are its body wrapped under its number.
    pub closed spec fn wf(self) -> bool {
        self.contents@ == sp_obj_wrap(self.id as nat, self.text@)
    }

    /// Wrap a dictionary body into a numbered object.
    pub fn new(text: &[u8], id: u16) -> (r: PDFObject)
        ensures
            r.spec_contents() == sp_obj_wrap(id as nat, text@),
            r.spec_id() == id as nat,
            r.wf(),
    {
        let mut out: Vec<u8> = Vec::new();
        push_dec(&mut out, id as u64);
        push_obj_a(&mut out);
        push_bytes(&mut out, text);
        push_obj_b(&mut out);
        proof {
            assert(Seq::<u8>::empty() + dec_digits(id as nat) =~= dec_digits(id as nat));
            assert(out@ =~= sp_obj_wrap(id as nat, text@));
        }
        PDFObject { contents: out, id, text: Ghost(text@) }
    }
}

/// The file under assembly: header bytes, then one block per object,
/// each block's byte offset recorded for the cross-reference table.
pub struct PDFFile {
    contents: Vec<u8>,
    object_counter: u16,
    offsets: Vec<usize>,
    blocks: Ghost<Seq<Seq<u8>>>,
}

impl PDFFile {
    pub closed spec fn spec_blocks(self) -> Seq<Seq<u8>> {
        self.blocks@
    }

    pub closed spec fn spec_contents(self) -> Seq<u8> {
        self.contents@
    }

    pub closed spec fn spec_offsets(self) -> Seq<usize> {
        self.offsets@
    }

    pub closed spec fn spec_counter(self) -> nat {
        self.object_counter as nat
    }

    /// The writer's invariant: the contents are the header followed by
    /// the written blocks; every block begins with its own object
    /// number, counted from one in write order; the recorded offsets
    /// point at the starts of the blocks.
    pub closed spec fn wf(self) -> bool {
        &&& self.blocks@.len() == self.offsets@.len()
        &&& self.object_counter as int == self.blocks@.len() + 1
        &&& self.contents@ == sp_header() + self.blocks@.flatten()
        &&& forall|k: int|
            0 <= k < self.blocks@.len() ==> sp_obj_start((k + 1) as nat).is_prefix_of(
                #[trigger] self.blocks@[k],
            )
        &&& forall|k: int|
            0 <= k < self.offsets@.len() ==> self.offsets@[k] as int == sp_header().len()
                + (#[trigger] self.blocks@.take(k)).flatten().len()
    }

    /// A new file holding only the header bytes.
    pub fn new() -> (r: PDFFile)
        ensures
            r.wf(),
            r.spec_blocks() == Seq::<Seq<u8>>::empty(),
            r.spec_contents() == sp_header(),
            r.spec_counter() == 1,
    {
        let mut out: Vec<u8> = Vec::new();
        push_header(&mut out);
        proof {
            assert(Seq::<u8>::empty() + sp_header() =~= sp_header());
            assert(Seq::<Seq<u8>>::empty().flatten() =~= Seq::<u8>::empty());
            assert(sp_header() + Seq::<Seq<u8>>::empty().flatten() =~= sp_header());
        }
        PDFFile { contents: out, object_counter: 1, offsets: Vec::new(), blocks: Ghost(Seq::empty()) }
    }

    /// Append one object's bytes, recording its offset. The bytes must
    /// begin with the next object number in sequence.
    pub fn add(&mut self, bytes: &[u8])
        requires
            old(self).wf(),
            old(self).spec_counter() < 0xffff,
            sp_obj_start((old(self).spec_blocks().len() + 1) as nat).is_prefix_of(bytes@),
        ensures
            final(self).wf(),
            final(self).spec_blocks() == old(self).spec_blocks().push(bytes@),
            final(self).spec_contents() == old(self).spec_contents() + bytes@,
            final(self).spec_counter() == old(self).spec_counter() + 1,
            final(self).spec_offsets() == old(self).spec_offsets().push(
                old(self).spec_contents().len() as usize,
            ),
    {
        proof {
            broadcast use Seq::lemma_flatten_push;
        }
        let off = self.contents.len();
        self.offsets.push(off);
        self.contents.extend_from_slice(bytes);
        self.object_counter = self.object_counter + 1;
        proof {
            self.blocks@ = self.blocks@.push(bytes@);
            assert(self.blocks@.take(self.blocks@.len() - 1) =~= old(self).blocks@);
            assert forall|k: int| 0 <= k < self.blocks@.len() - 1 implies #[trigger] self
                .blocks@.take(k) =~= old(self).blocks@.take(k) by {}
            assert(self.contents@ == sp_header() + self.blocks@.flatten());
            assert forall|k: int|
                0 <= k < self.offsets@.len() implies self.offsets@[k] as int == sp_header().len()
                + (#[trigger] self.blocks@.take(k)).flatten().len() by {
                if k < self.offsets@.len() - 1 {
                    assert(old(self).offsets@[k] as int == sp_header().len() + old(
                        self,
                    ).blocks@.take(k).flatten().len());
                    assert(self.blocks@.take(k) =~= old(self).blocks@.take(k));
                } else {
                    assert(self.blocks@.take(k) =~= old(self).blocks@);
                }
            }
        }
    }

    /// Append a wrapped object; it must carry the next number.
    pub fn add_object(&mut self, obj: &PDFObject)
        requires
            old(self).wf(),
            old(self).spec_counter() < 0xffff,
            obj.wf(),
            obj.spec_id() == old(self).spec_blocks().len() + 1,
        ensures
            final(self).wf(),
            final(self).spec_blocks() == old(self).spec_blocks().push(obj.spec_contents()),
            final(self).spec_contents() == old(self).spec_contents() + obj.spec_contents(),
            final(self).spec_counter() == old(self).spec_counter() + 1,
            final(self).spec_offsets() == old(self).spec_offsets().push(
                old(self).spec_contents().len() as usize,
            ),
    {
        proof {
            lemma_obj_wrap_prefix(obj.spec_id(), obj.text@);
        }
        self.add(obj.contents.as_slice());
    }

    /// The assembled bytes.
    pub fn output(&self) -> (r: Vec<u8>)
        ensures
            r@ == self.spec_contents(),
    {
        self.contents.clone()
    }
}

/// A wrapped object's bytes begin with its object number.
proof fn lemma_obj_wrap_prefix(id: nat, text: Seq<u8>)
    ensures
        sp_obj_start(id).is_prefix_of(sp_obj_wrap(id, text)),
{
    let w = sp_obj_wrap(id, text);
    assert(sp_obj_start(id) =~= w.take(sp_obj_start(id).len() as int));
}

/// Total number of images on the first `j` pages.
pub open spec fn prefix_imgs(pages: Seq<PDFPage>, j: int) -> int
    decreases j,
{
    if j <= 0 {
        0
    } else {
        prefix_imgs(pages, j - 1) + pages[j - 1].images@.len()
    }
}

proof fn lemma_prefix_imgs_bounds(pages: Seq<PDFPage>, i: int, j: int)
    requires
        0 <= i <= j,
    ensures
        prefix_imgs(pages, i) <= prefix_imgs(pages, j),
        0 <= prefix_imgs(pages, i),
    decreases j,
{
    if j > 0 {
        if i <= j - 1 {
            lemma_prefix_imgs_bounds(pages, i, j - 1);
        }
        if i == j {
            lemma_prefix_imgs_bounds(pages, i - 1, j - 1);
        }
    }
}

/// The object number of page `j`.
pub open spec fn sp_page_oid(nf: int, pages: Seq<PDFPage>, j: int) -> int {
    nf + 4 + prefix_imgs(pages, j + 1) + j
}

/// The object number of page `j`'s content stream.
pub open spec fn sp_content_oid(nf: int, pages: Seq<PDFPage>, j: int) -> int {
    nf + 4 + prefix_imgs(pages, pages.len() as int) + pages.len() + j
}

/// The object count recorded in the trailer: one more than the number
/// of objects written, for the free list head.
pub open spec fn sp_num_objects(nf: int, pages: Seq<PDFPage>) -> int {
    nf + 4 + prefix_imgs(pages, pages.len() as int) + 2 * pages.len()
}

/// One entry of the font dictionary.
pub open spec fn sp_font_entry(f: Font, k: int) -> Seq<u8> {
    sp_slash() + ascii_of(f.ref_name@) + sp_space() + dec_digits((k + 2) as nat) + sp_r_sp()
}

/// The font dictionary body: one reference per font.
pub open spec fn sp_font_dict_text(fonts: Seq<Font>) -> Seq<u8> {
    Seq::new(fonts.len(), |k: int| sp_font_entry(fonts[k], k)).flatten()
}

/// One font resource object body.
pub open spec fn sp_font_res_text(f: Font) -> Seq<u8> {
    sp_basefont() + ascii_of(f.name@) + sp_encoding() + ascii_of(f.ref_name@) + sp_subtype()
}

/// The catalog object body.
pub open spec fn sp_catalog_text(pages_id: int) -> Seq<u8> {
    sp_catalog() + dec_digits(pages_id as nat) + sp_r_nosp()
}

/// The pages tree object body, listing every page object.
pub open spec fn sp_pages_text(nf: int, pages: Seq<PDFPage>) -> Seq<u8> {
    sp_pages_a() + Seq::new(
        pages.len(),
        |j: int| dec_digits(sp_page_oid(nf, pages, j) as nat) + sp_r_sp(),
    ).flatten() + sp_pages_b() + dec_digits(pages.len())
}

/// A whole image object together with its encoded stream.
pub open spec fn sp_image_block(img: PDFImage, oid: int) -> Seq<u8> {
    let enc = ascii85::a85_encoded(img.contents@);
    dec_digits(oid as nat) + sp_img_a() + dec_digits(img.height as nat) + sp_img_b() + dec_digits(
        img.width as nat,
    ) + sp_img_c() + dec_digits((enc.len() + 2) as nat) + sp_img_d() + enc + sp_stream_end()
}

/// One entry of a page's XObject dictionary.
pub open spec fn sp_xobj_entry(img: PDFImage, oid: int) -> Seq<u8> {
    sp_im() + dec_digits(img.image_id as nat) + sp_space() + dec_digits(oid as nat) + sp_r_nosp()
}

/// The space-joined XObject entries of a page.
pub open spec fn sp_xobj_list(imgs: Seq<PDFImage>, first_oid: int) -> Seq<u8> {
    if imgs.len() == 0 {
        Seq::empty()
    } else {
        sp_xobj_entry(imgs[0], first_oid) + Seq::new(
            (imgs.len() - 1) as nat,
            |i: int| sp_space() + sp_xobj_entry(imgs[i + 1], first_oid + i + 1),
        ).flatten()
    }
}

/// A page object body.
pub open spec fn sp_page_text(
    pages_id: int,
    imgs: Seq<PDFImage>,
    first_oid: int,
    w: Seq<char>,
    h: Seq<char>,
    cid: int,
) -> Seq<u8> {
    sp_pg_a() + dec_digits(pages_id as nat) + sp_pg_b() + (if imgs.len() > 0 {
        sp_imagec()
    } else {
        Seq::empty()
    }) + sp_pg_c() + (if imgs.len() > 0 {
        sp_xobj_a() + sp_xobj_list(imgs, first_oid) + sp_xobj_b()
    } else {
        Seq::empty()
    }) + sp_pg_d() + ascii_of(w) + sp_space() + ascii_of(h) + sp_pg_e() + dec_digits(cid as nat)
        + sp_pg_f()
}

/// A whole content stream object: the operator stream compressed,
/// then base-85 encoded.
pub open spec fn sp_content_block(stream: Seq<u8>, cid: int) -> Seq<u8> {
    let enc = ascii85::a85_encoded(zlib::zlib_deflate_of(stream));
    dec_digits(cid as nat) + sp_ct_a() + dec_digits((enc.len() + 2) as nat) + sp_ct_b() + enc
        + sp_stream_end()
}

/// All object blocks of a document, in write order.
pub open spec fn sp_pdf_blocks(
    fonts: Seq<Font>,
    pages: Seq<PDFPage>,
    w: Seq<char>,
    h: Seq<char>,
) -> Seq<Seq<u8>> {
    let nf = fonts.len() as int;
    seq![sp_obj_wrap(1, sp_font_dict_text(fonts))] + Seq::new(
        fonts.len(),
        |k: int| sp_obj_wrap((k + 2) as nat, sp_font_res_text(fonts[k])),
    ) + seq![
        sp_obj_wrap((nf + 2) as nat, sp_catalog_text(nf + 3)),
        sp_obj_wrap((nf + 3) as nat, sp_pages_text(nf, pages)),
    ] + Seq::new(pages.len(), |j: int| sp_page_group(nf, pages, j, w, h)).flatten() + Seq::new(
        pages.len(),
        |j: int| sp_content_block(pages[j].contents@, sp_content_oid(nf, pages, j)),
    )
}

/// The blocks of one page: its image objects, then the page object.
pub open spec fn sp_page_group(
    nf: int,
    pages: Seq<PDFPage>,
    j: int,
    w: Seq<char>,
    h: Seq<char>,
) -> Seq<Seq<u8>> {
    let first = nf + 4 + prefix_imgs(pages, j) + j;
    Seq::new(pages[j].images@.len(), |i: int| sp_image_block(pages[j].images@[i], first + i)).push(
        sp_obj_wrap(
            sp_page_oid(nf, pages, j) as nat,
            sp_page_text(nf + 3, pages[j].images@, first, w, h, sp_content_oid(nf, pages, j)),
        ),
    )
}

/// The byte offset of every block within the finished file.
pub open spec fn sp_offsets_of(blocks: Seq<Seq<u8>>) -> Seq<int> {
    Seq::new(blocks.len(), |k: int| sp_header().len() + blocks.take(k).flatten().len() as int)
}

/// The cross-reference table and trailer.
pub open spec fn sp_trailer(num: int, root: int, offs: Seq<int>, xstart: int) -> Seq<u8> {
    sp_tr_a() + dec_digits(num as nat) + sp_tr_b() + Seq::new(
        offs.len(),
        |k: int| dec_pad10(offs[k] as nat) + sp_xr_ent(),
    ).flatten() + sp_tr_c() + dec_digits(num as nat) + sp_tr_d() + dec_digits(root as nat)
        + sp_tr_e() + dec_digits(xstart as nat) + sp_tr_f()
}

/// The complete byte-exact file produced for a document.
pub open spec fn pdf_document_bytes(
    fonts: Seq<Font>,
    pages: Seq<PDFPage>,
    w: Seq<char>,
    h: Seq<char>,
) -> Seq<u8> {
    let blocks = sp_pdf_blocks(fonts, pages, w, h);
    let body = sp_header() + blocks.flatten();
    body + sp_trailer(
        sp_num_objects(fonts.len() as int, pages),
        fonts.len() as int + 2,
        sp_offsets_of(blocks),
        body.len() as int,
    )
}

/// Whether every image of every page can be stream-encoded.
pub open spec fn images_ok(pages: Seq<PDFPage>) -> bool {
    forall|j: int, i: int|
        0 <= j < pages.len() && 0 <= i < pages[j].images@.len() ==> (
        #[trigger] pages[j].images@[i].contents@).len() > 0 && ascii85::a85_encodable(
            pages[j].images@[i].contents@,
        )
}

fn build_font_dict_text(fonts: &Vec<Font>) -> (r: Vec<u8>)
    requires
        forall|i: int| 0 <= i < fonts@.len() ==> (#[trigger] fonts@[i]).wf(),
        fonts@.len() + 2 <= 0xffff,
    ensures
        r@ == sp_font_dict_text(fonts@),
{
    proof {
        broadcast use Seq::lemma_flatten_push;
    }
    let mut out: Vec<u8> = Vec::new();
    let mut k: usize = 0;
    proof {
        assert(Seq::new(0, |i: int| sp_font_entry(fonts@[i], i)).flatten() =~= Seq::<u8>::empty());
    }
    while k < fonts.len()
        invariant
            forall|i: int| 0 <= i < fonts@.len() ==> (#[trigger] fonts@[i]).wf(),
            fonts@.len() + 2 <= 0xffff,
            k <= fonts@.len(),
            out@ == Seq::new(k as nat, |i: int| sp_font_entry(fonts@[i], i)).flatten(),
        decreases fonts@.len() - k,
    {
        push_slash(&mut out);
        push_ascii(&mut out, fonts[k].ref_name.as_str());
        push_space(&mut out);
        push_dec(&mut out, (k + 2) as u64);
        push_r_sp(&mut out);
        proof {
            broadcast use Seq::lemma_flatten_push;

            assert(out@ =~= Seq::new(k as nat, |i: int| sp_font_entry(fonts@[i], i)).flatten()
                + sp_font_entry(fonts@[k as int], k as int));
            assert(Seq::new((k + 1) as nat, |i: int| sp_font_entry(fonts@[i], i)) =~= Seq::new(
                k as nat,
                |i: int| sp_font_entry(fonts@[i], i),
            ).push(sp_font_entry(fonts@[k as int], k as int)));
        }
        k = k + 1;
    }
    out
}

fn build_font_res_text(f: &Font) -> (r: Vec<u8>)
    requires
        f.wf(),
    ensures
        r@ == sp_font_res_text(*f),
{
    let mut out: Vec<u8> = Vec::new();
    push_basefont(&mut out);
    push_ascii(&mut out, f.name.as_str());
    push_encoding(&mut out);
    push_ascii(&mut out, f.ref_name.as_str());
    push_subtype(&mut out);
    proof {
        assert(Seq::<u8>::empty() + sp_basefont() =~= sp_basefont());
    }
    out
}

fn build_catalog_text(pages_id: u64) -> (r: Vec<u8>)
    ensures
        r@ == sp_catalog_text(pages_id as int),
{
    let mut out: Vec<u8> = Vec::new();
    push_catalog(&mut out);
    push_dec(&mut out, pages_id);
    push_r_nosp(&mut out);
    proof {
        assert(Seq::<u8>::empty() + sp_catalog() =~= sp_catalog());
    }
    out
}

fn build_pages_text(nf: usize, pages: &Vec<PDFPage>) -> (r: Vec<u8>)
    requires
        sp_num_objects(nf as int, pages@) <= 0xffff,
    ensures
        r@ == sp_pages_text(nf as int, pages@),
{
    let mut out: Vec<u8> = Vec::new();
    push_pages_a(&mut out);
    proof {
        assert(Seq::<u8>::empty() + sp_pages_a() =~= sp_pages_a());
        assert(Seq::new(0, |j: int| dec_digits(sp_page_oid(nf as int, pages@, j) as nat)
            + sp_r_sp()).flatten() =~= Seq::<u8>::empty());
        lemma_prefix_imgs_bounds(pages@, 0, pages@.len() as int);
    }
    let mut extra: usize = 0;
    let mut j: usize = 0;
    while j < pages.len()
        invariant
            sp_num_objects(nf as int, pages@) <= 0xffff,
            j <= pages@.len(),
            extra as int == prefix_imgs(pages@, j as int) + j,
            out@ == sp_pages_a() + Seq::new(
                j as nat,
                |l: int| dec_digits(sp_page_oid(nf as int, pages@, l) as nat) + sp_r_sp(),
            ).flatten(),
        decreases pages@.len() - j,
    {
        let c = pages[j].images.len();
        proof {
            lemma_prefix_imgs_bounds(pages@, j + 1, pages@.len() as int);
            lemma_prefix_imgs_bounds(pages@, 0, j + 1);
            assert(prefix_imgs(pages@, j + 1) == prefix_imgs(pages@, j as int) + c);
        }
        let pid: usize = nf + 4 + extra + c;
        proof {
            assert(pid as int == sp_page_oid(nf as int, pages@, j as int));
        }
        push_dec(&mut out, pid as u64);
        push_r_sp(&mut out);
        proof {
            broadcast use Seq::lemma_flatten_push;

            assert(out@ =~= sp_pages_a() + (Seq::new(
                j as nat,
                |l: int| dec_digits(sp_page_oid(nf as int, pages@, l) as nat) + sp_r_sp(),
            ).flatten() + (dec_digits(sp_page_oid(nf as int, pages@, j as int) as nat)
                + sp_r_sp())));
            assert(Seq::new((j + 1) as nat, |l: int| dec_digits(
                sp_page_oid(nf as int, pages@, l) as nat,
            ) + sp_r_sp()) =~= Seq::new(
                j as nat,
                |l: int| dec_digits(sp_page_oid(nf as int, pages@, l) as nat) + sp_r_sp(),
            ).push(dec_digits(sp_page_oid(nf as int, pages@, j as int) as nat) + sp_r_sp()));
        }
        extra = extra + c + 1;
        j = j + 1;
    }
    push_pages_b(&mut out);
    push_dec(&mut out, pages.len() as u64);
    out
}

fn build_image_block(img: &PDFImage, oid: u64) -> (r: Result<Vec<u8>, String>)
    requires
        img.contents@.len() > 0,
        ascii85::a85_encodable(img.contents@),
    ensures
        r matches Ok(v) ==> v@ == sp_image_block(*img, oid as int),
        r is Ok ==> ascii85::a85_encoded(img.contents@).len() + 2 <= usize::MAX,
        r is Err ==> ascii85::a85_encoded(img.contents@).len() + 2 > usize::MAX,
{
    let enc = match ascii85::encode(img.contents.as_slice()) {
        Ok(e) => e,
        Err(m) => {
            proof {
                assert(false);
            }
            return Err(m);
        },
    };
    if enc.len() > usize::MAX - 2 {
        return Err(String::from_str("Stream too long."));
    }
    let mut out: Vec<u8> = Vec::new();
    push_dec(&mut out, oid);
    push_img_a(&mut out);
    push_dec(&mut out, img.height as u64);
    push_img_b(&mut out);
    push_dec(&mut out, img.width as u64);
    push_img_c(&mut out);
    push_dec(&mut out, (enc.len() + 2) as u64);
    push_img_d(&mut out);
    push_bytes(&mut out, enc.as_slice());
    push_stream_end(&mut out);
    proof {
        assert(Seq::<u8>::empty() + dec_digits(oid as nat) =~= dec_digits(oid as nat));
    }
    Ok(out)
}

fn build_xobj_list(imgs: &Vec<PDFImage>, first_oid: u64) -> (r: Vec<u8>)
    requires
        first_oid + imgs@.len() <= 0xffff,
    ensures
        r@ == sp_xobj_list(imgs@, first_oid as int),
{
    let mut out: Vec<u8> = Vec::new();
    let mut i: usize = 0;
    while i < imgs.len()
        invariant
            first_oid + imgs@.len() <= 0xffff,
            i <= imgs@.len(),
            i == 0 ==> out@ == Seq::<u8>::empty(),
            0 < i ==> out@ == sp_xobj_entry(imgs@[0], first_oid as int) + Seq::new(
                (i - 1) as nat,
                |l: int| sp_space() + sp_xobj_entry(imgs@[l + 1], first_oid as int + l + 1),
            ).flatten(),
        decreases imgs@.len() - i,
    {
        if i > 0 {
            push_space(&mut out);
        }
        push_im(&mut out);
        push_dec(&mut out, imgs[i].image_id as u64);
        push_space(&mut out);
        push_dec(&mut out, first_oid + (i as u64));
        push_r_nosp(&mut out);
        proof {
            broadcast use Seq::lemma_flatten_push;

            let f = |l: int| sp_space() + sp_xobj_entry(imgs@[l + 1], first_oid as int + l + 1);
            if i == 0 {
                assert(out@ =~= sp_xobj_entry(imgs@[0], first_oid as int));
                assert(Seq::new(0, f).flatten() =~= Seq::<u8>::empty());
                assert(out@ =~= sp_xobj_entry(imgs@[0], first_oid as int) + Seq::new(
                    0,
                    f,
                ).flatten());
            } else {
                assert(out@ =~= sp_xobj_entry(imgs@[0], first_oid as int) + (Seq::new(
                    (i - 1) as nat,
                    f,
                ).flatten() + f(i - 1)));
                assert(Seq::new(i as nat, f) =~= Seq::new((i - 1) as nat, f).push(f(i - 1)));
            }
        }
        i = i + 1;
    }
    proof {
        if imgs@.len() == 0 {
            assert(out@ =~= sp_xobj_list(imgs@, first_oid as int));
        }
    }
    out
}

fn build_page_text(
    pages_id: u64,
    imgs: &Vec<PDFImage>,
    first_oid: u64,
    page_w: &str,
    page_h: &str,
    cid: u64,
) -> (r: Vec<u8>)
    requires
        first_oid + imgs@.len() <= 0xffff,
        is_ascii_chars(page_w@),
        is_ascii_chars(page_h@),
    ensures
        r@ == sp_page_text(
            pages_id as int,
            imgs@,
            first_oid as int,
            page_w@,
            page_h@,
            cid as int,
        ),
{
    let mut out: Vec<u8> = Vec::new();
    push_pg_a(&mut out);
    push_dec(&mut out, pages_id);
    push_pg_b(&mut out);
    if imgs.len() > 0 {
        push_imagec(&mut out);
    }
    push_pg_c(&mut out);
    if imgs.len() > 0 {
        push_xobj_a(&mut out);
        let lst = build_xobj_list(imgs, first_oid);
        push_bytes(&mut out, lst.as_slice());
        push_xobj_b(&mut out);
    }
    push_pg_d(&mut out);
    push_ascii(&mut out, page_w);
    push_space(&mut out);
    push_ascii(&mut out, page_h);
    push_pg_e(&mut out);
    push_dec(&mut out, cid);
    push_pg_f(&mut out);
    proof {
        assert(out@ =~= sp_page_text(
            pages_id as int,
            imgs@,
            first_oid as int,
            page_w@,
            page_h@,
            cid as int,
        ));
    }
    out
}

fn build_content_block(stream: &Vec<u8>, cid: u64) -> (r: Result<Vec<u8>, String>)
    ensures
        r matches Ok(v) ==> v@ == sp_content_block(stream@, cid as int),
        r is Ok ==> ascii85::a85_encoded(zlib::zlib_deflate_of(stream@)).len() + 2 <= usize::MAX,
        r is Err ==> ascii85::a85_encoded(zlib::zlib_deflate_of(stream@)).len() + 2 > usize::MAX,
{
    let compressed = match zlib::encode(stream.as_slice()) {
        Ok(z) => z,
        Err(m) => {
            proof {
                assert(false);
            }
            return Err(m);
        },
    };
    proof {
        ascii85::lemma_nonzero_byte_encodable(compressed@, 0);
    }
    let enc = match ascii85::encode(compressed.as_slice()) {
        Ok(e) => e,
        Err(m) => {
            proof {
                assert(false);
            }
            return Err(m);
        },
    };
    if enc.len() > usize::MAX - 2 {
        return Err(String::from_str("Stream too long."));
    }
    let mut out: Vec<u8> = Vec::new();
    push_dec(&mut out, cid);
    push_ct_a(&mut out);
    push_dec(&mut out, (enc.len() + 2) as u64);
    push_ct_b(&mut out);
    push_bytes(&mut out, enc.as_slice());
    push_stream_end(&mut out);
    proof {
        assert(Seq::<u8>::empty() + dec_digits(cid as nat) =~= dec_digits(cid as nat));
    }
    Ok(out)
}

impl PDFFile {
    /// Write the cross-reference table and trailer. Every recorded
    /// offset becomes one table entry; `startxref` names the position
    /// where the table itself begins.
    fn add_trailer(&mut self, root_id: u16)
        requires
            old(self).wf(),
        ensures
            final(self).spec_contents() == old(self).spec_contents() + sp_trailer(
                old(self).spec_counter() as int,
                root_id as int,
                Seq::new(old(self).spec_offsets().len(), |k: int| old(self).spec_offsets()[k] as int),
                old(self).spec_contents().len() as int,
            ),
    {
        let ghost offs = Seq::new(
            old(self).spec_offsets().len(),
            |k: int| old(self).spec_offsets()[k] as int,
        );
        let xref_start = self.contents.len();
        push_tr_a(&mut self.contents);
        push_dec(&mut self.contents, self.object_counter as u64);
        push_tr_b(&mut self.contents);
        let ghost base = self.contents@;
        let mut k: usize = 0;
        while k < self.offsets.len()
            invariant
                self.offsets == old(self).offsets,
                self.object_counter == old(self).object_counter,
                offs == Seq::new(
                    old(self).spec_offsets().len(),
                    |i: int| old(self).spec_offsets()[i] as int,
                ),
                k <= self.offsets@.len(),
                self.contents@ == base + Seq::new(
                    k as nat,
                    |i: int| dec_pad10(offs[i] as nat) + sp_xr_ent(),
                ).flatten(),
            decreases self.offsets@.len() - k,
        {
            let entry = fmt_u64_pad10(self.offsets[k] as u64);
            push_bytes(&mut self.contents, entry.as_slice());
            push_xr_ent(&mut self.contents);
            proof {
                broadcast use Seq::lemma_flatten_push;

                let f = |i: int| dec_pad10(offs[i] as nat) + sp_xr_ent();
                assert(self.contents@ =~= base + (Seq::new(k as nat, f).flatten() + f(k as int)));
                assert(Seq::new((k + 1) as nat, f) =~= Seq::new(k as nat, f).push(f(k as int)));
            }
            k = k + 1;
        }
        push_tr_c(&mut self.contents);
        push_dec(&mut self.contents, self.object_counter as u64);
        push_tr_d(&mut self.contents);
        push_dec(&mut self.contents, root_id as u64);
        push_tr_e(&mut self.contents);
        push_dec(&mut self.contents, xref_start as u64);
        push_tr_f(&mut self.contents);
        proof {
            assert(self.contents@ =~= old(self).contents@ + sp_trailer(
                old(self).object_counter as int,
                root_id as int,
                offs,
                old(self).contents@.len() as int,
            ));
        }
    }
}

/// An image object's bytes begin with its object number.
proof fn lemma_image_block_prefix(img: PDFImage, oid: int)
    requires
        oid >= 0,
    ensures
        sp_obj_start(oid as nat).is_prefix_of(sp_image_block(img, oid)),
{
    assert(sp_obj_start(oid as nat) =~= sp_image_block(img, oid).take(
        sp_obj_start(oid as nat).len() as int,
    ));
}

/// A content stream object's bytes begin with its object number.
proof fn lemma_content_block_prefix(stream: Seq<u8>, cid: int)
    requires
        cid >= 0,
    ensures
        sp_obj_start(cid as nat).is_prefix_of(sp_content_block(stream, cid)),
{
    assert(sp_obj_start(cid as nat) =~= sp_content_block(stream, cid).take(
        sp_obj_start(cid as nat).len() as int,
    ));
}

/// Whether every stream, once compressed and encoded, still fits the
/// address space together with its two-byte end marker.
pub open spec fn sizes_ok(pages: Seq<PDFPage>) -> bool {
    &&& forall|j: int, i: int|
        0 <= j < pages.len() && 0 <= i < pages[j].images@.len() ==> ascii85::a85_encoded(
            (#[trigger] pages[j].images@[i]).contents@,
        ).len() + 2 <= usize::MAX
    &&& forall|j: int|
        0 <= j < pages.len() ==> ascii85::a85_encoded(
            zlib::zlib_deflate_of((#[trigger] pages[j]).contents@),
        ).len() + 2 <= usize::MAX
}

/// The document under construction: finished pages, the fonts used,
/// and the page and image counters.
pub struct PDFDocument {
    pages: Vec<PDFPage>,
    page_counter: u16,
    image_counter: u16,
    fonts: Vec<Font>,
}

impl PDFDocument {
    pub closed spec fn spec_pages(self) -> Seq<PDFPage> {
        self.pages@
    }

    pub closed spec fn spec_fonts(self) -> Seq<Font> {
        self.fonts@
    }

    pub closed spec fn spec_page_counter(self) -> nat {
        self.page_counter as nat
    }

    pub closed spec fn spec_image_counter(self) -> nat {
        self.image_counter as nat
    }

    /// Every registered font has ASCII names.
    pub closed spec fn wf(self) -> bool {
        forall|i: int| 0 <= i < self.fonts@.len() ==> (#[trigger] self.fonts@[i]).wf()
    }

    pub fn new() -> (r: PDFDocument)
        ensures
            r.wf(),
            r.spec_pages() == Seq::<PDFPage>::empty(),
            r.spec_fonts() == Seq::<Font>::empty(),
            r.spec_page_counter() == 1,
            r.spec_image_counter() == 0,
    {
        PDFDocument { pages: Vec::new(), page_counter: 1, image_counter: 0, fonts: Vec::new() }
    }

    /// Register a font; a font with an already-registered identity
    /// index is not added again.
    pub fn add_font(&mut self, font: Font)
        requires
            old(self).wf(),
            font.wf(),
        ensures
            final(self).wf(),
            final(self).spec_pages() == old(self).spec_pages(),
            final(self).spec_page_counter() == old(self).spec_page_counter(),
            final(self).spec_image_counter() == old(self).spec_image_counter(),
            (exists|i: int|
                0 <= i < old(self).spec_fonts().len() && (#[trigger] old(
                    self,
                ).spec_fonts()[i]).index == font.index) ==> final(self).spec_fonts() == old(
                self,
            ).spec_fonts(),
            !(exists|i: int|
                0 <= i < old(self).spec_fonts().len() && (#[trigger] old(
                    self,
                ).spec_fonts()[i]).index == font.index) ==> final(self).spec_fonts() == old(
                self,
            ).spec_fonts().push(font),
    {
        let mut i: usize = 0;
        while i < self.fonts.len()
            invariant
                self == old(self),
                old(self).wf(),
                font.wf(),
                i <= self.fonts@.len(),
                forall|l: int| 0 <= l < i ==> (#[trigger] self.fonts@[l]).index != font.index,
            decreases self.fonts@.len() - i,
        {
            if self.fonts[i].index == font.index {
                return ;
            }
            i = i + 1;
        }
        self.fonts.push(font);
        proof {
            assert forall|l: int| 0 <= l < self.fonts@.len() implies (
            #[trigger] self.fonts@[l]).wf() by {
                if l < self.fonts@.len() - 1 {
                    assert(old(self).fonts@[l].wf());
                }
            }
        }
    }

    /// Append a finished page.
    pub fn add_page(&mut self, page: PDFPage)
        requires
            old(self).wf(),
            old(self).spec_page_counter() < 0xffff,
        ensures
            final(self).wf(),
            final(self).spec_pages() == old(self).spec_pages().push(page),
            final(self).spec_fonts() == old(self).spec_fonts(),
            final(self).spec_page_counter() == old(self).spec_page_counter() + 1,
            final(self).spec_image_counter() == old(self).spec_image_counter(),
    {
        self.pages.push(page);
        self.page_counter = self.page_counter + 1;
    }

    /// The number of the page currently being built.
    pub fn page_number(&self) -> (r: u16)
        ensures
            r as nat == self.spec_page_counter(),
    {
        self.page_counter
    }

    /// A fresh image identifier.
    pub fn get_image_id(&mut self) -> (r: u16)
        requires
            old(self).spec_image_counter() < 0xffff,
        ensures
            old(self).wf() ==> final(self).wf(),
            final(self).spec_pages() == old(self).spec_pages(),
            final(self).spec_fonts() == old(self).spec_fonts(),
            final(self).spec_page_counter() == old(self).spec_page_counter(),
            final(self).spec_image_counter() == old(self).spec_image_counter() + 1,
            r as nat == final(self).spec_image_counter(),
    {
        self.image_counter = self.image_counter + 1;
        self.image_counter
    }
}

fn check_images(pages: &Vec<PDFPage>) -> (r: bool)
    ensures
        r == images_ok(pages@),
{
    let np = pages.len();
    let mut j: usize = 0;
    while j < np
        invariant
            np == pages@.len(),
            j <= np,
            forall|l: int, i: int|
                0 <= l < j && 0 <= i < pages@[l].images@.len() ==> (#[trigger] pages@[l]
                    .images@[i].contents@).len() > 0 && ascii85::a85_encodable(
                    pages@[l].images@[i].contents@,
                ),
        decreases np - j,
    {
        let imgs = &pages[j].images;
        let mut i: usize = 0;
        while i < imgs.len()
            invariant
                np == pages@.len(),
                j < np,
                imgs == &pages@[j as int].images,
                i <= imgs@.len(),
                forall|l: int, m: int|
                    0 <= l < j && 0 <= m < pages@[l].images@.len() ==> (#[trigger] pages@[l]
                        .images@[m].contents@).len() > 0 && ascii85::a85_encodable(
                        pages@[l].images@[m].contents@,
                    ),
                forall|m: int|
                    0 <= m < i ==> (#[trigger] imgs@[m].contents@).len() > 0
                        && ascii85::a85_encodable(imgs@[m].contents@),
            decreases imgs@.len() - i,
        {
            if imgs[i].contents.len() == 0 || !ascii85::a85_check(imgs[i].contents.as_slice()) {
                proof {
                    assert(!((pages@[j as int].images@[i as int].contents@).len() > 0
                        && ascii85::a85_encodable(pages@[j as int].images@[i as int].contents@)));
                }
                return false;
            }
            i = i + 1;
        }
        j = j + 1;
    }
    true
}

fn count_extra(pages: &Vec<PDFPage>) -> (r: usize)
    requires
        prefix_imgs(pages@, pages@.len() as int) + pages@.len() <= 0xffff,
    ensures
        r as int == prefix_imgs(pages@, pages@.len() as int) + pages@.len(),
{
    let np = pages.len();
    let mut total: usize = 0;
    let mut j: usize = 0;
    while j < np
        invariant
            np == pages@.len(),
            prefix_imgs(pages@, np as int) + np <= 0xffff,
            j <= np,
            total as int == prefix_imgs(pages@, j as int) + j,
        decreases np - j,
    {
        proof {
            lemma_prefix_imgs_bounds(pages@, j + 1, np as int);
            lemma_prefix_imgs_bounds(pages@, 0, j as int);
        }
        total = total + pages[j].images.len() + 1;
        j = j + 1;
    }
    total
}

/// The finished block list matches the document's block specification,
/// and the finished file matches the document byte specification.
proof fn lemma_finalize(
    pdf: PDFFile,
    gfonts: Seq<Font>,
    gpages: Seq<PDFPage>,
    w: Seq<char>,
    h: Seq<char>,
)
    requires
        pdf.wf(),
        pdf.spec_blocks() == ((seq![sp_obj_wrap(1, sp_font_dict_text(gfonts))] + Seq::new(
            gfonts.len(),
            |l: int| sp_obj_wrap((l + 2) as nat, sp_font_res_text(gfonts[l])),
        ) + seq![
            sp_obj_wrap((gfonts.len() + 2) as nat, sp_catalog_text(gfonts.len() as int + 3)),
            sp_obj_wrap((gfonts.len() + 3) as nat, sp_pages_text(gfonts.len() as int, gpages)),
        ]) + Seq::new(
            gpages.len(),
            |l: int| sp_page_group(gfonts.len() as int, gpages, l, w, h),
        ).flatten()) + Seq::new(
            gpages.len(),
            |l: int| sp_content_block(gpages[l].contents@, sp_content_oid(
                gfonts.len() as int,
                gpages,
                l,
            )),
        ),
    ensures
        pdf.spec_blocks() == sp_pdf_blocks(gfonts, gpages, w, h),
        Seq::new(pdf.spec_offsets().len(), |k: int| pdf.spec_offsets()[k] as int)
            =~= sp_offsets_of(sp_pdf_blocks(gfonts, gpages, w, h)),
        pdf.spec_contents() == sp_header() + sp_pdf_blocks(gfonts, gpages, w, h).flatten(),
{
    assert(pdf.spec_blocks() == sp_pdf_blocks(gfonts, gpages, w, h));
    let blocks = sp_pdf_blocks(gfonts, gpages, w, h);
    assert forall|k: int| 0 <= k < pdf.spec_offsets().len() implies pdf.spec_offsets()[k] as int
        == sp_offsets_of(blocks)[k] by {
        assert(pdf.spec_offsets()[k] as int == sp_header().len() + pdf.spec_blocks().take(
            k,
        ).flatten().len());
    }
}

impl PDFDocument {
    /// Assemble the final file: the font dictionary and font objects,
    /// the catalog and pages tree, every page's images, page object
    /// and compressed content stream, and the cross-reference table.
    /// Objects are numbered in exactly the order they are written.
    #[verifier::rlimit(100)]
    pub fn save_document(&self, page_width: &str, page_height: &str) -> (r: Result<
        Vec<u8>,
        String,
    >)
        requires
            self.wf(),
            is_ascii_chars(page_width@),
            is_ascii_chars(page_height@),
            sp_num_objects(self.spec_fonts().len() as int, self.spec_pages()) <= 0xffff,
        ensures
            images_ok(self.spec_pages()) && sizes_ok(self.spec_pages()) ==> (r matches Ok(v)
                && v@ == pdf_document_bytes(
                self.spec_fonts(),
                self.spec_pages(),
                page_width@,
                page_height@,
            )),
            !(images_ok(self.spec_pages()) && sizes_ok(self.spec_pages())) ==> r is Err,
    {
        let ghost gfonts = self.fonts@;
        let ghost gpages = self.pages@;
        let ghost w = page_width@;
        let ghost h = page_height@;
        let nf = self.fonts.len();
        let np = self.pages.len();
        proof {
            lemma_prefix_imgs_bounds(gpages, 0, np as int);
        }
        if !check_images(&self.pages) {
            return Err(String::from_str("Image cannot be encoded."));
        }
        let total_extra = count_extra(&self.pages);
        let mut pdf = PDFFile::new();
        // Object 1: the font dictionary.
        let fd = build_font_dict_text(&self.fonts);
        let obj = PDFObject::new(fd.as_slice(), 1);
        pdf.add_object(&obj);
        let ghost b0 = sp_obj_wrap(1, sp_font_dict_text(gfonts));
        proof {
            assert(pdf.spec_blocks() =~= seq![b0]);
        }
        // One resource object per font.
        let mut k: usize = 0;
        while k < nf
            invariant
                self.wf(),
                gfonts == self.fonts@,
                nf == gfonts.len(),
                sp_num_objects(nf as int, gpages) <= 0xffff,
                0 <= prefix_imgs(gpages, gpages.len() as int),
                k <= nf,
                pdf.wf(),
                pdf.spec_blocks() == seq![b0] + Seq::new(
                    k as nat,
                    |l: int| sp_obj_wrap((l + 2) as nat, sp_font_res_text(gfonts[l])),
                ),
            decreases nf - k,
        {
            let t = build_font_res_text(&self.fonts[k]);
            let obj = PDFObject::new(t.as_slice(), (k + 2) as u16);
            pdf.add_object(&obj);
            proof {
                let f = |l: int| sp_obj_wrap((l + 2) as nat, sp_font_res_text(gfonts[l]));
                assert(pdf.spec_blocks() =~= seq![b0] + Seq::new((k + 1) as nat, f));
            }
            k = k + 1;
        }
        let ghost resseq = Seq::new(
            nf as nat,
            |l: int| sp_obj_wrap((l + 2) as nat, sp_font_res_text(gfonts[l])),
        );
        // Catalog and pages tree.
        let root_id: usize = nf + 2;
        let pages_id: usize = nf + 3;
        let t = build_catalog_text(pages_id as u64);
        let obj = PDFObject::new(t.as_slice(), root_id as u16);
        pdf.add_object(&obj);
        let t = build_pages_text(nf, &self.pages);
        let obj = PDFObject::new(t.as_slice(), pages_id as u16);
        pdf.add_object(&obj);
        let ghost pre = (seq![b0] + resseq) + seq![
            sp_obj_wrap((nf + 2) as nat, sp_catalog_text(nf as int + 3)),
            sp_obj_wrap((nf + 3) as nat, sp_pages_text(nf as int, gpages)),
        ];
        proof {
            assert(pdf.spec_blocks() =~= pre);
        }
        // Every page: its image objects, then the page object.
        let mut extra: usize = 0;
        let mut j: usize = 0;
        while j < np
            invariant
                self.wf(),
                gfonts == self.fonts@,
                gpages == self.pages@,
                w == page_width@,
                h == page_height@,
                is_ascii_chars(w),
                is_ascii_chars(h),
                nf == gfonts.len(),
                np == gpages.len(),
                sp_num_objects(nf as int, gpages) <= 0xffff,
                images_ok(gpages),
                total_extra as int == prefix_imgs(gpages, np as int) + np,
                pages_id == nf + 3,
                j <= np,
                extra as int == prefix_imgs(gpages, j as int) + j,
                forall|l: int, m: int|
                    0 <= l < j && 0 <= m < gpages[l].images@.len() ==> ascii85::a85_encoded(
                        (#[trigger] gpages[l].images@[m]).contents@,
                    ).len() + 2 <= usize::MAX,
                pdf.wf(),
                pdf.spec_blocks() == pre + Seq::new(
                    j as nat,
                    |l: int| sp_page_group(nf as int, gpages, l, w, h),
                ).flatten(),
                pdf.spec_blocks().len() == nf + 3 + extra,
            decreases np - j,
        {
            let imgs = &self.pages[j].images;
            let c = imgs.len();
            proof {
                lemma_prefix_imgs_bounds(gpages, j + 1, np as int);
                lemma_prefix_imgs_bounds(gpages, 0, j as int);
                assert(prefix_imgs(gpages, j + 1) == prefix_imgs(gpages, j as int) + c);
            }
            let first_oid: usize = nf + 4 + extra;
            let cid: usize = nf + 4 + total_extra + j;
            let mut i: usize = 0;
            while i < c
                invariant
                    gpages == self.pages@,
                    w == page_width@,
                    h == page_height@,
                    nf == gfonts.len(),
                    np == gpages.len(),
                    sp_num_objects(nf as int, gpages) <= 0xffff,
                    images_ok(gpages),
                    j < np,
                    imgs == &self.pages@[j as int].images,
                    c == imgs@.len(),
                    prefix_imgs(gpages, j + 1) == prefix_imgs(gpages, j as int) + c,
                    0 <= prefix_imgs(gpages, j as int),
                    prefix_imgs(gpages, j + 1) + j + 1 <= prefix_imgs(gpages, np as int) + np,
                    i <= c,
                    pages_id == nf + 3,
                    cid as int == sp_content_oid(nf as int, gpages, j as int),
                    extra as int == prefix_imgs(gpages, j as int) + j,
                    first_oid == nf + 4 + extra,
                    forall|l: int, m: int|
                        0 <= l < j && 0 <= m < gpages[l].images@.len() ==> ascii85::a85_encoded(
                            (#[trigger] gpages[l].images@[m]).contents@,
                        ).len() + 2 <= usize::MAX,
                    forall|m: int|
                        0 <= m < i ==> ascii85::a85_encoded(
                            (#[trigger] imgs@[m]).contents@,
                        ).len() + 2 <= usize::MAX,
                    pdf.wf(),
                    pdf.spec_blocks() == (pre + Seq::new(
                        j as nat,
                        |l: int| sp_page_group(nf as int, gpages, l, w, h),
                    ).flatten()) + Seq::new(
                        i as nat,
                        |m: int| sp_image_block(imgs@[m], first_oid as int + m),
                    ),
                    pdf.spec_blocks().len() == nf + 3 + extra + i,
                decreases c - i,
            {
                let oid: usize = first_oid + i;
                let blk = match build_image_block(&imgs[i], oid as u64) {
                    Ok(b) => b,
                    Err(m) => {
                        proof {
                            assert(!sizes_ok(gpages)) by {
                                assert(ascii85::a85_encoded(
                                    gpages[j as int].images@[i as int].contents@,
                                ).len() + 2 > usize::MAX);
                            };
                        }
                        return Err(m);
                    },
                };
                proof {
                    lemma_image_block_prefix(imgs@[i as int], oid as int);
                }
                pdf.add(blk.as_slice());
                proof {
                    let g = |m: int| sp_image_block(imgs@[m], first_oid as int + m);
                    assert(pdf.spec_blocks() =~= (pre + Seq::new(
                        j as nat,
                        |l: int| sp_page_group(nf as int, gpages, l, w, h),
                    ).flatten()) + Seq::new((i + 1) as nat, g));
                }
                i = i + 1;
            }
            let pid: usize = nf + 4 + extra + c;
            let t = build_page_text(
                pages_id as u64,
                imgs,
                first_oid as u64,
                page_width,
                page_height,
                cid as u64,
            );
            let obj = PDFObject::new(t.as_slice(), pid as u16);
            pdf.add_object(&obj);
            proof {
                broadcast use Seq::lemma_flatten_push;

                let grp = |l: int| sp_page_group(nf as int, gpages, l, w, h);
                assert(Seq::new(
                    c as nat,
                    |m: int| sp_image_block(imgs@[m], first_oid as int + m),
                ).push(
                    sp_obj_wrap(
                        sp_page_oid(nf as int, gpages, j as int) as nat,
                        sp_page_text(
                            nf as int + 3,
                            gpages[j as int].images@,
                            first_oid as int,
                            w,
                            h,
                            sp_content_oid(nf as int, gpages, j as int),
                        ),
                    ),
                ) =~= sp_page_group(nf as int, gpages, j as int, w, h));
                assert(pdf.spec_blocks() =~= (pre + Seq::new(j as nat, grp).flatten()) + grp(
                    j as int,
                ));
                assert(Seq::new((j + 1) as nat, grp) =~= Seq::new(j as nat, grp).push(
                    grp(j as int),
                ));
                assert(pdf.spec_blocks() =~= pre + Seq::new((j + 1) as nat, grp).flatten());
            }
            extra = extra + c + 1;
            j = j + 1;
        }
        let ghost pre2 = pre + Seq::new(
            np as nat,
            |l: int| sp_page_group(nf as int, gpages, l, w, h),
        ).flatten();
        // Every page's content stream object.
        let mut j: usize = 0;
        while j < np
            invariant
                gpages == self.pages@,
                nf == gfonts.len(),
                np == gpages.len(),
                sp_num_objects(nf as int, gpages) <= 0xffff,
                total_extra as int == prefix_imgs(gpages, np as int) + np,
                j <= np,
                forall|l: int, m: int|
                    0 <= l < np && 0 <= m < gpages[l].images@.len() ==> ascii85::a85_encoded(
                        (#[trigger] gpages[l].images@[m]).contents@,
                    ).len() + 2 <= usize::MAX,
                forall|l: int|
                    0 <= l < j ==> ascii85::a85_encoded(
                        zlib::zlib_deflate_of((#[trigger] gpages[l]).contents@),
                    ).len() + 2 <= usize::MAX,
                pdf.wf(),
                pdf.spec_blocks() == pre2 + Seq::new(
                    j as nat,
                    |l: int| sp_content_block(gpages[l].contents@, sp_content_oid(
                        nf as int,
                        gpages,
                        l,
                    )),
                ),
                pdf.spec_blocks().len() == nf + 3 + total_extra + j,
            decreases np - j,
        {
            let cid: usize = nf + 4 + total_extra + j;
            let blk = match build_content_block(&self.pages[j].contents, cid as u64) {
                Ok(b) => b,
                Err(m) => {
                    proof {
                        assert(!sizes_ok(gpages)) by {
                            assert(ascii85::a85_encoded(
                                zlib::zlib_deflate_of(gpages[j as int].contents@),
                            ).len() + 2 > usize::MAX);
                        };
                    }
                    return Err(m);
                },
            };
            proof {
                lemma_content_block_prefix(gpages[j as int].contents@, cid as int);
            }
            pdf.add(blk.as_slice());
            proof {
                let f = |l: int| sp_content_block(gpages[l].contents@, sp_content_oid(
                    nf as int,
                    gpages,
                    l,
                ));
                assert(pdf.spec_blocks() =~= pre2 + Seq::new((j + 1) as nat, f));
            }
            j = j + 1;
        }
        proof {
            assert(sizes_ok(gpages));
            lemma_finalize(pdf, gfonts, gpages, w, h);
            assert(pdf.spec_counter() as int == sp_num_objects(nf as int, gpages));
        }
        pdf.add_trailer(root_id as u16);
        let out = pdf.output();
        proof {
            assert(out@ == pdf_document_bytes(gfonts, gpages, w, h));
        }
        Ok(out)
    }
}

/// Blocks within one page-group flattening start with consecutive
/// object numbers.
#[verifier::rlimit(100)]
proof fn lemma_group_flatten_start(
    nf: int,
    pages: Seq<PDFPage>,
    w: Seq<char>,
    h: Seq<char>,
    j: int,
)
    requires
        0 <= nf,
        0 <= j <= pages.len(),
    ensures
        Seq::new(j as nat, |l: int| sp_page_group(nf, pages, l, w, h)).flatten().len()
            == prefix_imgs(pages, j) + j,
        forall|t: int|
            0 <= t < prefix_imgs(pages, j) + j ==> (#[trigger] sp_obj_start(
                (nf + 4 + t) as nat,
            )).is_prefix_of(
                Seq::new(j as nat, |l: int| sp_page_group(nf, pages, l, w, h)).flatten()[t],
            ),
    decreases j,
{
    broadcast use Seq::lemma_flatten_push;

    let grp = |l: int| sp_page_group(nf, pages, l, w, h);
    if j == 0 {
        assert(Seq::new(0, grp) =~= Seq::<Seq<Seq<u8>>>::empty());
        assert(Seq::new(0, grp).flatten() =~= Seq::<Seq<u8>>::empty());
        lemma_prefix_imgs_bounds(pages, 0, 0);
    } else {
        lemma_group_flatten_start(nf, pages, w, h, j - 1);
        lemma_prefix_imgs_bounds(pages, 0, j - 1);
        let fl = Seq::new((j - 1) as nat, grp).flatten();
        let g = sp_page_group(nf, pages, j - 1, w, h);
        assert(Seq::new(j as nat, grp) =~= Seq::new((j - 1) as nat, grp).push(grp(j - 1)));
        assert(Seq::new(j as nat, grp).flatten() == fl + g);
        let c = pages[j - 1].images@.len() as int;
        let first = nf + 4 + prefix_imgs(pages, j - 1) + (j - 1);
        assert(g.len() == c + 1);
        assert(prefix_imgs(pages, j) == prefix_imgs(pages, j - 1) + c);
        assert forall|t: int| 0 <= t < prefix_imgs(pages, j) + j implies sp_obj_start(
            (nf + 4 + t) as nat,
        ).is_prefix_of(#[trigger] Seq::new(j as nat, grp).flatten()[t]) by {
            if t < fl.len() {
                assert(sp_obj_start((nf + 4 + t) as nat).is_prefix_of(fl[t]));
                assert(Seq::new(j as nat, grp).flatten()[t] == fl[t]);
            } else {
                let u = t - fl.len();
                assert(Seq::new(j as nat, grp).flatten()[t] == g[u]);
                if u < c {
                    assert(g[u] == sp_image_block(pages[j - 1].images@[u], first + u));
                    lemma_image_block_prefix(pages[j - 1].images@[u], first + u);
                    assert(first + u == nf + 4 + t);
                } else {
                    assert(g[u] == sp_obj_wrap(
                        sp_page_oid(nf, pages, j - 1) as nat,
                        sp_page_text(
                            nf + 3,
                            pages[j - 1].images@,
                            first,
                            w,
                            h,
                            sp_content_oid(nf, pages, j - 1),
                        ),
                    ));
                    lemma_obj_wrap_prefix(
                        sp_page_oid(nf, pages, j - 1) as nat,
                        sp_page_text(
                            nf + 3,
                            pages[j - 1].images@,
                            first,
                            w,
                            h,
                            sp_content_oid(nf, pages, j - 1),
                        ),
                    );
                    assert(sp_page_oid(nf, pages, j - 1) == nf + 4 + t);
                }
            }
        }
    }
}

/// Every object block begins with its own object number: block `k`
/// holds object `k + 1`.
#[verifier::rlimit(100)]
proof fn lemma_blocks_start(fonts: Seq<Font>, pages: Seq<PDFPage>, w: Seq<char>, h: Seq<char>, k: int)
    requires
        0 <= k < sp_pdf_blocks(fonts, pages, w, h).len(),
    ensures
        sp_pdf_blocks(fonts, pages, w, h).len() == sp_num_objects(fonts.len() as int, pages) - 1,
        sp_obj_start((k + 1) as nat).is_prefix_of(sp_pdf_blocks(fonts, pages, w, h)[k]),
{
    let nf = fonts.len() as int;
    let np = pages.len() as int;
    let blocks = sp_pdf_blocks(fonts, pages, w, h);
    lemma_group_flatten_start(nf, pages, w, h, np);
    lemma_prefix_imgs_bounds(pages, 0, np);
    let fl = Seq::new(pages.len(), |l: int| sp_page_group(nf, pages, l, w, h)).flatten();
    assert(blocks.len() == 1 + nf + 2 + (prefix_imgs(pages, np) + np) + np);
    if k == 0 {
        assert(blocks[0] == sp_obj_wrap(1, sp_font_dict_text(fonts)));
        lemma_obj_wrap_prefix(1, sp_font_dict_text(fonts));
    } else if k < 1 + nf {
        assert(blocks[k] == sp_obj_wrap((k + 1) as nat, sp_font_res_text(fonts[k - 1])));
        lemma_obj_wrap_prefix((k + 1) as nat, sp_font_res_text(fonts[k - 1]));
    } else if k == 1 + nf {
        assert(blocks[k] == sp_obj_wrap((nf + 2) as nat, sp_catalog_text(nf + 3)));
        lemma_obj_wrap_prefix((nf + 2) as nat, sp_catalog_text(nf + 3));
    } else if k == 2 + nf {
        assert(blocks[k] == sp_obj_wrap((nf + 3) as nat, sp_pages_text(nf, pages)));
        lemma_obj_wrap_prefix((nf + 3) as nat, sp_pages_text(nf, pages));
    } else if k < 3 + nf + fl.len() {
        let t = k - (3 + nf);
        assert(blocks[k] == fl[t]);
        assert(sp_obj_start((nf + 4 + t) as nat).is_prefix_of(fl[t]));
    } else {
        let m = k - (3 + nf) - fl.len();
        assert(blocks[k] == sp_content_block(pages[m].contents@, sp_content_oid(nf, pages, m)));
        lemma_content_block_prefix(pages[m].contents@, sp_content_oid(nf, pages, m));
        assert(sp_content_oid(nf, pages, m) == k + 1);
    }
}

/// Cross-reference invariant: in the finished byte buffer, the offset
/// recorded for each object points at the bytes `<id> 0 obj` of that
/// very object, and the offset after `startxref` is the position where
/// the literal `xref` begins.
#[verifier::rlimit(100)]
pub proof fn lemma_xref_invariant(
    fonts: Seq<Font>,
    pages: Seq<PDFPage>,
    w: Seq<char>,
    h: Seq<char>,
    k: int,
)
    requires
        0 <= k < sp_pdf_blocks(fonts, pages, w, h).len(),
    ensures
        ({
            let blocks = sp_pdf_blocks(fonts, pages, w, h);
            let bytes = pdf_document_bytes(fonts, pages, w, h);
            let off = sp_offsets_of(blocks)[k];
            let xs = (sp_header() + blocks.flatten()).len() as int;
            &&& 0 <= off < bytes.len()
            &&& sp_obj_start((k + 1) as nat).is_prefix_of(bytes.skip(off))
            &&& seq![120u8, 114, 101, 102].is_prefix_of(bytes.skip(xs))
        }),
{
    let blocks = sp_pdf_blocks(fonts, pages, w, h);
    let bytes = pdf_document_bytes(fonts, pages, w, h);
    let body = sp_header() + blocks.flatten();
    let off = sp_offsets_of(blocks)[k];
    lemma_blocks_start(fonts, pages, w, h, k);
    lemma_flatten_concat(blocks.take(k), blocks.skip(k));
    assert(blocks.take(k) + blocks.skip(k) =~= blocks);
    assert(blocks.flatten() == blocks.take(k).flatten() + blocks.skip(k).flatten());
    assert(blocks.skip(k).len() > 0);
    assert(blocks.skip(k)[0] == blocks[k]);
    assert(blocks.skip(k).drop_first() =~= blocks.skip(k + 1));
    assert(blocks.skip(k).flatten() == blocks[k] + blocks.skip(k + 1).flatten());
    assert(off == sp_header().len() + blocks.take(k).flatten().len());
    assert(bytes.skip(off) =~= (blocks[k] + blocks.skip(k + 1).flatten()) + sp_trailer(
        sp_num_objects(fonts.len() as int, pages),
        fonts.len() as int + 2,
        sp_offsets_of(blocks),
        body.len() as int,
    ));
    let st = sp_obj_start((k + 1) as nat);
    assert(st.is_prefix_of(blocks[k]));
    assert(st =~= bytes.skip(off).take(st.len() as int));
    assert(bytes.skip(body.len() as int) =~= sp_trailer(
        sp_num_objects(fonts.len() as int, pages),
        fonts.len() as int + 2,
        sp_offsets_of(blocks),
        body.len() as int,
    ));
    assert(seq![120u8, 114, 101, 102].is_prefix_of(bytes.skip(body.len() as int))) by {
        assert(seq![120u8, 114, 101, 102] =~= bytes.skip(body.len() as int).take(4));
    };
}

} // verus!


