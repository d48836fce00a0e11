//! The line-oriented record format of the per-thread logs.
//!
//! One [`Action`] is written per line, in a fixed, self-describing
//! textual form, for example:
//!
//! ```text
//! Location { address: 3, file: "src/a.rs", line: 10, column: 5 }
//! ```
//!
//! The encoding is canonical: for every action there is exactly one
//! line of bytes, and the parser accepts exactly those lines, so a
//! record whose shape or field names deviate in any way is a hard
//! parse error. Within a quoted string, backslash, double quote and
//! newline are escaped, so an encoded record never contains a raw
//! newline and a log file splits unambiguously at newline bytes.
//!
//! A trailing fragment without a final newline is treated as a record
//! that was never completely flushed: [`parse_log`] drops it silently
//! and returns the records of the complete prefix.

use vstd::prelude::*;

use crate::action::{Action, ActionV, action_views};

verus! {

/// The byte sequence of `Location { address: `.
pub open spec fn loc_head() -> Seq<u8> {
    seq![76u8, 111u8, 99u8, 97u8, 116u8, 105u8, 111u8, 110u8, 32u8, 123u8, 32u8, 97u8, 100u8, 100u8, 114u8, 101u8, 115u8, 115u8, 58u8, 32u8]
}

fn loc_head_vec() -> (v: Vec<u8>)
    ensures
        v@ == loc_head(),
{
    let mut v: Vec<u8> = Vec::new();
    v.push(76);
    v.push(111);
    v.push(99);
    v.push(97);
    v.push(116);
    v.push(105);
    v.push(111);
    v.push(110);
    v.push(32);
    v.push(123);
    v.push(32);
    v.push(97);
    v.push(100);
    v.push(100);
    v.push(114);
    v.push(101);
    v.push(115);
    v.push(115);
    v.push(58);
    v.push(32);
    proof {
        assert(v@ =~= loc_head());
    }
    v
}

/// The byte sequence of `, file: `.
pub open spec fn lit_file() -> Seq<u8> {
    seq![44u8, 32u8, 102u8, 105u8, 108u8, 101u8, 58u8, 32u8]
}

fn lit_file_vec() -> (v: Vec<u8>)
    ensures
        v@ == lit_file(),
{
    let mut v: Vec<u8> = Vec::new();
    v.push(44);
    v.push(32);
    v.push(102);
    v.push(105);
    v.push(108);
    v.push(101);
    v.push(58);
    v.push(32);
    proof {
        assert(v@ =~= lit_file());
    }
    v
}

/// The byte sequence of `, line: `.
pub open spec fn lit_line() -> Seq<u8> {
    seq![44u8, 32u8, 108u8, 105u8, 110u8, 101u8, 58u8, 32u8]
}

fn lit_line_vec() -> (v: Vec<u8>)
    ensures
        v@ == lit_line(),
{
    let mut v: Vec<u8> = Vec::new();
    v.push(44);
    v.push(32);
    v.push(108);
    v.push(105);
    v.push(110);
    v.push(101);
    v.push(58);
    v.push(32);
    proof {
        assert(v@ =~= lit_line());
    }
    v
}

/// The byte sequence of `, column: `.
pub open spec fn lit_column() -> Seq<u8> {
    seq![44u8, 32u8, 99u8, 111u8, 108u8, 117u8, 109u8, 110u8, 58u8, 32u8]
}

fn lit_column_vec() -> (v: Vec<u8>)
    ensures
        v@ == lit_column(),
{
    let mut v: Vec<u8> = Vec::new();
    v.push(44);
    v.push(32);
    v.push(99);
    v.push(111);
    v.push(108);
    v.push(117);
    v.push(109);
    v.push(110);
    v.push(58);
    v.push(32);
    proof {
        assert(v@ =~= lit_column());
    }
    v
}

/// The byte sequence of ` }`.
pub open spec fn lit_close() -> Seq<u8> {
    seq![32u8, 125u8]
}

fn lit_close_vec() -> (v: Vec<u8>)
    ensures
        v@ == lit_close(),
{
    let mut v: Vec<u8> = Vec::new();
    v.push(32);
    v.push(125);
    proof {
        assert(v@ =~= lit_close());
    }
    v
}

/// The byte sequence of `Rank { bit: `.
pub open spec fn rank_head() -> Seq<u8> {
    seq![82u8, 97u8, 110u8, 107u8, 32u8, 123u8, 32u8, 98u8, 105u8, 116u8, 58u8, 32u8]
}

fn rank_head_vec() -> (v: Vec<u8>)
    ensures
        v@ == rank_head(),
{
    let mut v: Vec<u8> = Vec::new();
    v.push(82);
    v.push(97);
    v.push(110);
    v.push(107);
    v.push(32);
    v.push(123);
    v.push(32);
    v.push(98);
    v.push(105);
    v.push(116);
    v.push(58);
    v.push(32);
    proof {
        assert(v@ =~= rank_head());
    }
    v
}

/// The byte sequence of `, member_name: `.
pub open spec fn lit_member() -> Seq<u8> {
    seq![44u8, 32u8, 109u8, 101u8, 109u8, 98u8, 101u8, 114u8, 95u8, 110u8, 97u8, 109u8, 101u8, 58u8, 32u8]
}

fn lit_member_vec() -> (v: Vec<u8>)
    ensures
        v@ == lit_member(),
{
    let mut v: Vec<u8> = Vec::new();
    v.push(44);
    v.push(32);
    v.push(109);
    v.push(101);
    v.push(109);
    v.push(98);
    v.push(101);
    v.push(114);
    v.push(95);
    v.push(110);
    v.push(97);
    v.push(109);
    v.push(101);
    v.push(58);
    v.push(32);
    proof {
        assert(v@ =~= lit_member());
    }
    v
}

/// The byte sequence of `, const_name: `.
pub open spec fn lit_const() -> Seq<u8> {
    seq![44u8, 32u8, 99u8, 111u8, 110u8, 115u8, 116u8, 95u8, 110u8, 97u8, 109u8, 101u8, 58u8, 32u8]
}

fn lit_const_vec() -> (v: Vec<u8>)
    ensures
        v@ == lit_const(),
{
    let mut v: Vec<u8> = Vec::new();
    v.push(44);
    v.push(32);
    v.push(99);
    v.push(111);
    v.push(110);
    v.push(115);
    v.push(116);
    v.push(95);
    v.push(110);
    v.push(97);
    v.push(109);
    v.push(101);
    v.push(58);
    v.push(32);
    proof {
        assert(v@ =~= lit_const());
    }
    v
}

/// The byte sequence of `Acquisition { older_rank: `.
pub open spec fn acq_head() -> Seq<u8> {
    seq![65u8, 99u8, 113u8, 117u8, 105u8, 115u8, 105u8, 116u8, 105u8, 111u8, 110u8, 32u8, 123u8, 32u8, 111u8, 108u8, 100u8, 101u8, 114u8, 95u8, 114u8, 97u8, 110u8, 107u8, 58u8, 32u8]
}

fn acq_head_vec() -> (v: Vec<u8>)
    ensures
        v@ == acq_head(),
{
    let mut v: Vec<u8> = Vec::new();
    v.push(65);
    v.push(99);
    v.push(113);
    v.push(117);
    v.push(105);
    v.push(115);
    v.push(105);
    v.push(116);
    v.push(105);
    v.push(111);
    v.push(110);
    v.push(32);
    v.push(123);
    v.push(32);
    v.push(111);
    v.push(108);
    v.push(100);
    v.push(101);
    v.push(114);
    v.push(95);
    v.push(114);
    v.push(97);
    v.push(110);
    v.push(107);
    v.push(58);
    v.push(32);
    proof {
        assert(v@ =~= acq_head());
    }
    v
}

/// The byte sequence of `, older_location: `.
pub open spec fn lit_older_loc() -> Seq<u8> {
    seq![44u8, 32u8, 111u8, 108u8, 100u8, 101u8, 114u8, 95u8, 108u8, 111u8, 99u8, 97u8, 116u8, 105u8, 111u8, 110u8, 58u8, 32u8]
}

fn lit_older_loc_vec() -> (v: Vec<u8>)
    ensures
        v@ == lit_older_loc(),
{
    let mut v: Vec<u8> = Vec::new();
    v.push(44);
    v.push(32);
    v.push(111);
    v.push(108);
    v.push(100);
    v.push(101);
    v.push(114);
    v.push(95);
    v.push(108);
    v.push(111);
    v.push(99);
    v.push(97);
    v.push(116);
    v.push(105);
    v.push(111);
    v.push(110);
    v.push(58);
    v.push(32);
    proof {
        assert(v@ =~= lit_older_loc());
    }
    v
}

/// The byte sequence of `, newer_rank: `.
pub open spec fn lit_newer_rank() -> Seq<u8> {
    seq![44u8, 32u8, 110u8, 101u8, 119u8, 101u8, 114u8, 95u8, 114u8, 97u8, 110u8, 107u8, 58u8, 32u8]
}

fn lit_newer_rank_vec() -> (v: Vec<u8>)
    ensures
        v@ == lit_newer_rank(),
{
    let mut v: Vec<u8> = Vec::new();
    v.push(44);
    v.push(32);
    v.push(110);
    v.push(101);
    v.push(119);
    v.push(101);
    v.push(114);
    v.push(95);
    v.push(114);
    v.push(97);
    v.push(110);
    v.push(107);
    v.push(58);
    v.push(32);
    proof {
        assert(v@ =~= lit_newer_rank());
    }
    v
}

/// The byte sequence of `, newer_location: `.
pub open spec fn lit_newer_loc() -> Seq<u8> {
    seq![44u8, 32u8, 110u8, 101u8, 119u8, 101u8, 114u8, 95u8, 108u8, 111u8, 99u8, 97u8, 116u8, 105u8, 111u8, 110u8, 58u8, 32u8]
}

fn lit_newer_loc_vec() -> (v: Vec<u8>)
    ensures
        v@ == lit_newer_loc(),
{
    let mut v: Vec<u8> = Vec::new();
    v.push(44);
    v.push(32);
    v.push(110);
    v.push(101);
    v.push(119);
    v.push(101);
    v.push(114);
    v.push(95);
    v.push(108);
    v.push(111);
    v.push(99);
    v.push(97);
    v.push(116);
    v.push(105);
    v.push(111);
    v.push(110);
    v.push(58);
    v.push(32);
    proof {
        assert(v@ =~= lit_newer_loc());
    }
    v
}

/// The decimal digit byte for the lowest digit of `v`.
pub open spec fn dec_digit(v: nat) -> u8 {
    (48 + (v % 10)) as u8
}

/// The canonical decimal encoding of `v`: no sign, no leading zeros.
pub open spec fn spec_dec_nat(v: nat) -> Seq<u8>
    decreases v,
{
    if v < 10 {
        seq![dec_digit(v)]
    } else {
        spec_dec_nat(v / 10) + seq![dec_digit(v)]
    }
}

/// The escaped form of one byte inside a quoted string: backslash,
/// double quote and newline get a two-byte escape, everything else
/// passes through unchanged.
pub open spec fn esc_byte(b: u8) -> Seq<u8> {
    if b == 92 {
        seq![92u8, 92u8]
    } else if b == 34 {
        seq![92u8, 34u8]
    } else if b == 10 {
        seq![92u8, 110u8]
    } else {
        seq![b]
    }
}

/// The escaped form of a whole byte string.
pub open spec fn spec_esc(s: Seq<u8>) -> Seq<u8>
    decreases s.len(),
{
    if s.len() == 0 {
        Seq::empty()
    } else {
        esc_byte(s[0]) + spec_esc(s.skip(1))
    }
}

/// A quoted, escaped byte string: `"` + escaped bytes + `"`.
pub open spec fn spec_quote(s: Seq<u8>) -> Seq<u8> {
    seq![34u8] + spec_esc(s) + seq![34u8]
}

/// The one line of bytes that encodes `a` (without the final newline).
pub open spec fn spec_encode_action(a: ActionV) -> Seq<u8> {
    match a {
        ActionV::Location { address, file, line, column } => loc_head() + spec_dec_nat(
            address as nat,
        ) + lit_file() + spec_quote(file) + lit_line() + spec_dec_nat(line as nat) + lit_column()
            + spec_dec_nat(column as nat) + lit_close(),
        ActionV::Rank { bit, member_name, const_name } => rank_head() + spec_dec_nat(bit as nat)
            + lit_member() + spec_quote(member_name) + lit_const() + spec_quote(const_name)
            + lit_close(),
        ActionV::Acquisition { older_rank, older_location, newer_rank, newer_location } =>
            acq_head() + spec_dec_nat(older_rank as nat) + lit_older_loc() + spec_dec_nat(
            older_location as nat,
        ) + lit_newer_rank() + spec_dec_nat(newer_rank as nat) + lit_newer_loc() + spec_dec_nat(
            newer_location as nat,
        ) + lit_close(),
    }
}

/// Appends the canonical decimal encoding of `v`.
fn push_dec_u64(out: &mut Vec<u8>, v: u64)
    ensures
        final(out)@ == old(out)@ + spec_dec_nat(v as nat),
    decreases v,
{
    if v >= 10 {
        push_dec_u64(out, v / 10);
    }
    let d: u8 = 48 + (v % 10) as u8;
    out.push(d);
    proof {
        assert(d == dec_digit(v as nat));
        assert(out@ =~= old(out)@ + spec_dec_nat(v as nat));
    }
}

proof fn lemma_esc_snoc(s: Seq<u8>, b: u8)
    ensures
        spec_esc(s.push(b)) == spec_esc(s) + esc_byte(b),
    decreases s.len(),
{
    if s.len() == 0 {
        assert(s.push(b).skip(1) =~= Seq::<u8>::empty());
        assert(spec_esc(s.push(b)) == esc_byte(b) + spec_esc(Seq::<u8>::empty()));
        assert(spec_esc(Seq::<u8>::empty()) == Seq::<u8>::empty());
        assert(s =~= Seq::<u8>::empty());
        assert(spec_esc(s.push(b)) =~= spec_esc(s) + esc_byte(b));
    } else {
        lemma_esc_snoc(s.skip(1), b);
        assert(s.push(b).skip(1) =~= s.skip(1).push(b));
        assert(s.push(b)[0] == s[0]);
        assert(spec_esc(s.push(b)) =~= spec_esc(s) + esc_byte(b));
    }
}

/// Appends the quoted, escaped form of `s`.
fn push_quoted(out: &mut Vec<u8>, s: &Vec<u8>)
    ensures
        final(out)@ == old(out)@ + spec_quote(s@),
{
    out.push(34);
    let mut i: usize = 0;
    while i < s.len()
        invariant
            i <= s@.len(),
            out@ == old(out)@ + seq![34u8] + spec_esc(s@.take(i as int)),
        decreases s@.len() - i,
    {
        let b = s[i];
        proof {
            assert(s@.take(i as int).push(b) =~= s@.take(i + 1));
            lemma_esc_snoc(s@.take(i as int), b);
        }
        if b == 92 {
            out.push(92);
            out.push(92);
        } else if b == 34 {
            out.push(92);
            out.push(34);
        } else if b == 10 {
            out.push(92);
            out.push(110);
        } else {
            out.push(b);
        }
        proof {
            assert(out@ =~= old(out)@ + seq![34u8] + spec_esc(s@.take(i + 1)));
        }
        i = i + 1;
    }
    out.push(34);
    proof {
        assert(s@.take(s@.len() as int) =~= s@);
        assert(out@ =~= old(out)@ + spec_quote(s@));
    }
}

/// Encodes one action as its canonical line of bytes (no newline).
pub fn encode_action(a: &Action) -> (out: Vec<u8>)
    ensures
        out@ == spec_encode_action(a@),
{
    let mut out: Vec<u8> = Vec::new();
    match a {
        Action::Location { address, file, line, column } => {
            let mut h = loc_head_vec();
            out.append(&mut h);
            push_dec_u64(&mut out, *address);
            let mut h = lit_file_vec();
            out.append(&mut h);
            push_quoted(&mut out, file);
            let mut h = lit_line_vec();
            out.append(&mut h);
            push_dec_u64(&mut out, *line as u64);
            let mut h = lit_column_vec();
            out.append(&mut h);
            push_dec_u64(&mut out, *column as u64);
            let mut h = lit_close_vec();
            out.append(&mut h);
            proof {
                assert(out@ =~= spec_encode_action(a@));
            }
        },
        Action::Rank { bit, member_name, const_name } => {
            let mut h = rank_head_vec();
            out.append(&mut h);
            push_dec_u64(&mut out, *bit as u64);
            let mut h = lit_member_vec();
            out.append(&mut h);
            push_quoted(&mut out, member_name);
            let mut h = lit_const_vec();
            out.append(&mut h);
            push_quoted(&mut out, const_name);
            let mut h = lit_close_vec();
            out.append(&mut h);
            proof {
                assert(out@ =~= spec_encode_action(a@));
            }
        },
        Action::Acquisition { older_rank, older_location, newer_rank, newer_location } => {
            let mut h = acq_head_vec();
            out.append(&mut h);
            push_dec_u64(&mut out, *older_rank as u64);
            let mut h = lit_older_loc_vec();
            out.append(&mut h);
            push_dec_u64(&mut out, *older_location);
            let mut h = lit_newer_rank_vec();
            out.append(&mut h);
            push_dec_u64(&mut out, *newer_rank as u64);
            let mut h = lit_newer_loc_vec();
            out.append(&mut h);
            push_dec_u64(&mut out, *newer_location);
            let mut h = lit_close_vec();
            out.append(&mut h);
            proof {
                assert(out@ =~= spec_encode_action(a@));
            }
        },
    }
    out
}


/// True of an ASCII decimal digit byte.
pub open spec fn is_digit(b: u8) -> bool {
    48 <= b && b <= 57
}

/// The numeric value of a digit byte.
pub open spec fn digit_val(b: u8) -> nat {
    (b - 48) as nat
}

/// The end of the run of digit bytes that starts at `i`.
pub open spec fn digit_run_end(l: Seq<u8>, i: int) -> int
    decreases l.len() - i when 0 <= i <= l.len()
{
    if i < l.len() && is_digit(l[i]) {
        digit_run_end(l, i + 1)
    } else {
        i
    }
}

/// The value of a run of digit bytes, read left to right onto `acc`.
pub open spec fn from_digits(s: Seq<u8>, acc: nat) -> nat
    decreases s.len(),
{
    if s.len() == 0 {
        acc
    } else {
        from_digits(s.skip(1), acc * 10 + digit_val(s[0]))
    }
}

proof fn lemma_from_digits_snoc(s: Seq<u8>, b: u8, acc: nat)
    ensures
        from_digits(s.push(b), acc) == from_digits(s, acc) * 10 + digit_val(b),
    decreases s.len(),
{
    if s.len() == 0 {
        assert(s.push(b) =~= seq![b]);
        lemma_from_digits_singleton(b, acc);
    } else {
        assert(s.push(b).skip(1) =~= s.skip(1).push(b));
        lemma_from_digits_snoc(s.skip(1), b, acc * 10 + digit_val(s[0]));
    }
}

proof fn lemma_from_digits_append(a: Seq<u8>, b: Seq<u8>, acc: nat)
    ensures
        from_digits(a + b, acc) == from_digits(b, from_digits(a, acc)),
    decreases a.len(),
{
    if a.len() == 0 {
        assert(a + b =~= b);
    } else {
        assert((a + b).skip(1) =~= a.skip(1) + b);
        assert((a + b)[0] == a[0]);
        lemma_from_digits_append(a.skip(1), b, acc * 10 + digit_val(a[0]));
    }
}

proof fn lemma_from_digits_ge_acc(s: Seq<u8>, acc: nat)
    ensures
        from_digits(s, acc) >= acc,
    decreases s.len(),
{
    if s.len() > 0 {
        lemma_from_digits_ge_acc(s.skip(1), acc * 10 + digit_val(s[0]));
    }
}

proof fn lemma_dec_all_digits(v: nat)
    ensures
        spec_dec_nat(v).len() >= 1,
        forall|k: int| 0 <= k < spec_dec_nat(v).len() ==> is_digit(#[trigger] spec_dec_nat(v)[k]),
    decreases v,
{
    if v >= 10 {
        lemma_dec_all_digits(v / 10);
    }
}

proof fn lemma_from_digits_singleton(b: u8, acc: nat)
    ensures
        from_digits(seq![b], acc) == acc * 10 + digit_val(b),
{
    let one = seq![b];
    assert(one.skip(1) =~= Seq::<u8>::empty());
    assert(from_digits(one, acc) == from_digits(one.skip(1), acc * 10 + digit_val(b)));
    assert(from_digits(Seq::<u8>::empty(), acc * 10 + digit_val(b)) == acc * 10 + digit_val(b));
}

proof fn lemma_from_digits_dec(v: nat)
    ensures
        from_digits(spec_dec_nat(v), 0) == v,
    decreases v,
{
    assert(digit_val(dec_digit(v)) == v % 10);
    lemma_from_digits_singleton(dec_digit(v), 0);
    if v < 10 {
        assert(spec_dec_nat(v) == seq![dec_digit(v)]);
    } else {
        lemma_from_digits_dec(v / 10);
        lemma_from_digits_append(spec_dec_nat(v / 10), seq![dec_digit(v)], 0);
        lemma_from_digits_singleton(dec_digit(v), v / 10);
        assert((v / 10) * 10 + v % 10 == v) by (nonlinear_arith);
    }
}

proof fn lemma_digit_run(l: Seq<u8>, i: int, j: int)
    requires
        0 <= i <= j <= l.len(),
        forall|k: int| i <= k < j ==> is_digit(#[trigger] l[k]),
        j == l.len() || !is_digit(l[j]),
    ensures
        digit_run_end(l, i) == j,
    decreases j - i,
{
    if i < j {
        lemma_digit_run(l, i + 1, j);
    }
}

proof fn lemma_digit_run_end_bounds(l: Seq<u8>, i: int)
    requires
        0 <= i <= l.len(),
    ensures
        i <= digit_run_end(l, i) <= l.len(),
    decreases l.len() - i,
{
    if i < l.len() && is_digit(l[i]) {
        lemma_digit_run_end_bounds(l, i + 1);
    }
}

/// True when the two byte vectors hold the same bytes.
pub fn bytes_eq(a: &Vec<u8>, b: &Vec<u8>) -> (r: bool)
    ensures
        r <==> a@ == b@,
{
    if a.len() != b.len() {
        return false;
    }
    let mut i: usize = 0;
    while i < a.len()
        invariant
            a@.len() == b@.len(),
            i <= a@.len(),
            forall|k: int| 0 <= k < i ==> a@[k] == b@[k],
        decreases a@.len() - i,
    {
        if a[i] != b[i] {
            return false;
        }
        i = i + 1;
    }
    proof {
        assert(a@ =~= b@);
    }
    true
}

/// Whether the bytes of `pat` stand in `l` at position `i`, and where
/// the match ends.
pub open spec fn spec_lit_at(l: Seq<u8>, i: int, pat: Seq<u8>) -> Option<int> {
    if i + pat.len() <= l.len() && l.subrange(i, i + pat.len()) == pat {
        Some(i + pat.len())
    } else {
        None
    }
}

/// Matches the literal `pat` at position `i`.
fn expect(line: &Vec<u8>, i: usize, pat: &Vec<u8>) -> (r: Option<usize>)
    requires
        i <= line@.len(),
    ensures
        match r {
            Some(j) => spec_lit_at(line@, i as int, pat@) == Some(j as int) && j == i + pat@.len()
                && j <= line@.len(),
            None => spec_lit_at(line@, i as int, pat@) is None,
        },
{
    if line.len() - i < pat.len() {
        return None;
    }
    let mut k: usize = 0;
    while k < pat.len()
        invariant
            i + pat@.len() <= line@.len(),
            line@.len() <= usize::MAX,
            k <= pat@.len(),
            forall|m: int| 0 <= m < k ==> line@[i + m] == pat@[m],
        decreases pat@.len() - k,
    {
        if line[i + k] != pat[k] {
            proof {
                assert(line@.subrange(i as int, i + pat@.len())[k as int] == line@[i + k]);
            }
            return None;
        }
        k = k + 1;
    }
    proof {
        assert(line@.subrange(i as int, i + pat@.len()) =~= pat@);
    }
    Some(i + pat.len())
}

/// The number that a maximal digit run at `i` denotes, if there is a
/// run and its value fits in a `u64`.
pub open spec fn spec_num_at(l: Seq<u8>, i: int) -> Option<(nat, int)> {
    let e = digit_run_end(l, i);
    let v = from_digits(l.subrange(i, e), 0);
    if e > i && v <= u64::MAX as nat {
        Some((v, e))
    } else {
        None
    }
}

/// Reads a maximal run of decimal digits at `i` as a `u64`.
fn parse_u64(line: &Vec<u8>, i: usize) -> (r: Option<(u64, usize)>)
    requires
        i <= line@.len(),
    ensures
        match r {
            Some(p) => spec_num_at(line@, i as int) == Some((p.0 as nat, p.1 as int)) && i < p.1
                <= line@.len(),
            None => spec_num_at(line@, i as int) is None,
        },
{
    proof {
        lemma_digit_run_end_bounds(line@, i as int);
    }
    let ghost e = digit_run_end(line@, i as int);
    let mut pos: usize = i;
    let mut acc: u64 = 0;
    while pos < line.len() && 48 <= line[pos] && line[pos] <= 57
        invariant
            i <= pos <= line@.len(),
            e == digit_run_end(line@, i as int),
            digit_run_end(line@, pos as int) == e,
            pos <= e <= line@.len(),
            forall|k: int| i <= k < pos ==> is_digit(#[trigger] line@[k]),
            acc as nat == from_digits(line@.subrange(i as int, pos as int), 0),
        decreases line@.len() - pos,
    {
        let b = line[pos];
        let d: u64 = (b - 48) as u64;
        proof {
            lemma_digit_run_end_bounds(line@, pos + 1);
            assert(digit_run_end(line@, pos as int) == digit_run_end(line@, pos + 1));
            assert(pos + 1 <= e);
            lemma_from_digits_snoc(line@.subrange(i as int, pos as int), b, 0);
            assert(line@.subrange(i as int, pos as int).push(b) =~= line@.subrange(
                i as int,
                pos + 1,
            ));
        }
        if acc > (u64::MAX - d) / 10 {
            proof {
                // The run up to here already overflows, so the whole run does.
                assert(acc * 10 + d > u64::MAX) by (nonlinear_arith)
                    requires
                        acc > (u64::MAX - d) / 10,
                        d <= 9,
                ;
                let run = line@.subrange(i as int, e);
                let pre = line@.subrange(i as int, pos + 1);
                assert(pre + line@.subrange(pos + 1, e) =~= run);
                lemma_from_digits_append(pre, line@.subrange(pos + 1, e), 0);
                lemma_from_digits_ge_acc(line@.subrange(pos + 1, e), from_digits(pre, 0));
                assert(from_digits(run, 0) > u64::MAX as nat);
            }
            return None;
        }
        proof {
            assert(acc * 10 + d <= u64::MAX) by (nonlinear_arith)
                requires
                    acc <= (u64::MAX - d) / 10,
                    d <= 9,
            ;
        }
        acc = acc * 10 + d;
        pos = pos + 1;
    }
    proof {
        assert(digit_run_end(line@, pos as int) == pos);
        assert(pos == e);
    }
    if pos == i {
        return None;
    }
    Some((acc, pos))
}

/// Scans the inside of a quoted string from `i`, unescaping onto
/// `acc`, until the closing quote. Yields the unescaped bytes and the
/// position just past the closing quote.
pub open spec fn unquote_scan(l: Seq<u8>, i: int, acc: Seq<u8>) -> Option<(Seq<u8>, int)>
    decreases l.len() - i when 0 <= i <= l.len()
{
    if i >= l.len() {
        None
    } else if l[i] == 34 {
        Some((acc, i + 1))
    } else if l[i] == 92 {
        if i + 1 < l.len() {
            if l[i + 1] == 92 {
                unquote_scan(l, i + 2, acc.push(92))
            } else if l[i + 1] == 34 {
                unquote_scan(l, i + 2, acc.push(34))
            } else if l[i + 1] == 110 {
                unquote_scan(l, i + 2, acc.push(10))
            } else {
                None
            }
        } else {
            None
        }
    } else {
        unquote_scan(l, i + 1, acc.push(l[i]))
    }
}

/// A quoted string at `i`: an opening quote, escaped content, a
/// closing quote.
pub open spec fn spec_quoted_at(l: Seq<u8>, i: int) -> Option<(Seq<u8>, int)> {
    if 0 <= i < l.len() && l[i] == 34 {
        unquote_scan(l, i + 1, Seq::empty())
    } else {
        None
    }
}

proof fn lemma_unquote_scan_bounds(l: Seq<u8>, i: int, acc: Seq<u8>)
    requires
        0 <= i <= l.len(),
    ensures
        unquote_scan(l, i, acc) matches Some(p) ==> i < p.1 <= l.len(),
    decreases l.len() - i,
{
    if i < l.len() {
        if l[i] == 34 {
        } else if l[i] == 92 {
            if i + 1 < l.len() {
                lemma_unquote_scan_bounds(l, i + 2, acc.push(92));
                lemma_unquote_scan_bounds(l, i + 2, acc.push(34));
                lemma_unquote_scan_bounds(l, i + 2, acc.push(10));
            }
        } else {
            lemma_unquote_scan_bounds(l, i + 1, acc.push(l[i]));
        }
    }
}

/// Reads a quoted, escaped string at `i`.
fn parse_quoted(line: &Vec<u8>, i: usize) -> (r: Option<(Vec<u8>, usize)>)
    requires
        i <= line@.len(),
    ensures
        match r {
            Some(p) => spec_quoted_at(line@, i as int) == Some((p.0@, p.1 as int)) && i < p.1
                <= line@.len(),
            None => spec_quoted_at(line@, i as int) is None,
        },
{
    if i >= line.len() || line[i] != 34 {
        return None;
    }
    let mut out: Vec<u8> = Vec::new();
    let mut pos: usize = i + 1;
    proof {
        lemma_unquote_scan_bounds(line@, i + 1, Seq::<u8>::empty());
    }
    loop
        invariant
            i < line@.len(),
            line@[i as int] == 34,
            i + 1 <= pos <= line@.len(),
            line@.len() <= usize::MAX,
            unquote_scan(line@, i + 1, Seq::<u8>::empty()) == unquote_scan(line@, pos as int, out@),
        decreases line@.len() - pos,
    {
        proof {
            lemma_unquote_scan_bounds(line@, pos as int, out@);
        }
        if pos >= line.len() {
            return None;
        }
        let b = line[pos];
        if b == 34 {
            return Some((out, pos + 1));
        } else if b == 92 {
            if pos + 1 >= line.len() {
                return None;
            }
            let c = line[pos + 1];
            if c == 92 {
                out.push(92);
            } else if c == 34 {
                out.push(34);
            } else if c == 110 {
                out.push(10);
            } else {
                return None;
            }
            pos = pos + 2;
        } else {
            out.push(b);
            pos = pos + 1;
        }
    }
}

proof fn lemma_unquote_canonical(l: Seq<u8>, i: int, s: Seq<u8>, acc: Seq<u8>)
    requires
        0 <= i,
        i + spec_esc(s).len() + 1 <= l.len(),
        l.subrange(i, i + spec_esc(s).len() + 1) == spec_esc(s) + seq![34u8],
    ensures
        unquote_scan(l, i, acc) == Some((acc + s, i + spec_esc(s).len() + 1)),
    decreases s.len(),
{
    let block = spec_esc(s) + seq![34u8];
    assert forall|k: int| 0 <= k < block.len() implies l[i + k] == block[k] by {
        assert(l.subrange(i, i + spec_esc(s).len() + 1)[k] == l[i + k]);
    }
    if s.len() == 0 {
        assert(l[i] == block[0]);
        assert(block[0] == 34);
        assert(acc + s =~= acc);
    } else {
        let rest = s.skip(1);
        assert(spec_esc(s) == esc_byte(s[0]) + spec_esc(rest));
        let eb = esc_byte(s[0]);
        let i2 = i + eb.len();
        let block2 = spec_esc(rest) + seq![34u8];
        assert(block == (eb + spec_esc(rest)) + seq![34u8]);
        assert((eb + spec_esc(rest)) + seq![34u8] =~= eb + block2);
        assert(l.subrange(i2, i + spec_esc(s).len() + 1) =~= block2) by {
            assert forall|k: int| 0 <= k < block2.len() implies l.subrange(
                i2,
                i + spec_esc(s).len() + 1,
            )[k] == block2[k] by {
                assert(l[i + (eb.len() + k)] == block[eb.len() + k]);
                assert(block[eb.len() + k] == (eb + block2)[eb.len() + k]);
            }
        }
        if s[0] == 92 || s[0] == 34 || s[0] == 10 {
            assert(eb.len() == 2);
            assert(l[i] == block[0] && block[0] == 92);
            assert(l[i + 1] == block[1]);
            let mapped: u8 = if s[0] == 10 { 110u8 } else { s[0] };
            assert(block[1] == mapped);
            lemma_unquote_canonical(l, i2, rest, acc.push(s[0]));
            assert(acc.push(s[0]) + rest =~= acc + s);
        } else {
            assert(eb.len() == 1);
            assert(l[i] == block[0] && block[0] == s[0]);
            assert(l[i] != 34 && l[i] != 92);
            lemma_unquote_canonical(l, i + 1, rest, acc.push(s[0]));
            assert(acc.push(s[0]) + rest =~= acc + s);
        }
    }
}

proof fn lemma_peel(l: Seq<u8>, i: int, a: Seq<u8>, b: Seq<u8>)
    requires
        0 <= i,
        i + a.len() + b.len() <= l.len(),
        l.subrange(i, i + a.len() + b.len()) == a + b,
    ensures
        l.subrange(i, i + a.len()) == a,
        l.subrange(i + a.len(), i + a.len() + b.len()) == b,
{
    assert forall|k: int| 0 <= k < a.len() implies l.subrange(i, i + a.len())[k] == a[k] by {
        assert(l.subrange(i, i + a.len() + b.len())[k] == l[i + k]);
        assert((a + b)[k] == a[k]);
    }
    assert(l.subrange(i, i + a.len()) =~= a);
    assert forall|k: int| 0 <= k < b.len() implies l.subrange(
        i + a.len(),
        i + a.len() + b.len(),
    )[k] == b[k] by {
        let m = a.len() + k;
        assert(l.subrange(i, i + a.len() + b.len())[m] == l[i + m]);
        assert((a + b)[m] == b[k]);
    }
    assert(l.subrange(i + a.len(), i + a.len() + b.len()) =~= b);
}

/// The fields of a `Location` record, read from position `i` to the
/// end of the line.
pub open spec fn spec_parse_location(l: Seq<u8>, i: int) -> Option<ActionV> {
    match spec_num_at(l, i) {
        Some((address, p1)) => match spec_lit_at(l, p1, lit_file()) {
            Some(p2) => match spec_quoted_at(l, p2) {
                Some((file, p3)) => match spec_lit_at(l, p3, lit_line()) {
                    Some(p4) => match spec_num_at(l, p4) {
                        Some((line, p5)) => if line <= u32::MAX as nat {
                            match spec_lit_at(l, p5, lit_column()) {
                                Some(p6) => match spec_num_at(l, p6) {
                                    Some((column, p7)) => if column <= u32::MAX as nat {
                                        match spec_lit_at(l, p7, lit_close()) {
                                            Some(p8) => if p8 == l.len() {
                                                Some(ActionV::Location {
                                                    address: address as u64,
                                                    file: file,
                                                    line: line as u32,
                                                    column: column as u32,
                                                })
                                            } else {
                                                None
                                            },
                                            None => None,
                                        }
                                    } else {
                                        None
                                    },
                                    None => None,
                                },
                                None => None,
                            }
                        } else {
                            None
                        },
                        None => None,
                    },
                    None => None,
                },
                None => None,
            },
            None => None,
        },
        None => None,
    }
}

fn parse_location_fields(line: &Vec<u8>, i: usize) -> (r: Option<Action>)
    requires
        i <= line@.len(),
    ensures
        match r {
            Some(a) => spec_parse_location(line@, i as int) == Some(a@),
            None => spec_parse_location(line@, i as int) is None,
        },
{
    let (address, p1) = match parse_u64(line, i) {
        Some(p) => p,
        None => {
            return None;
        },
    };
    let pat = lit_file_vec();
    let p2 = match expect(line, p1, &pat) {
        Some(p) => p,
        None => {
            return None;
        },
    };
    let (file, p3) = match parse_quoted(line, p2) {
        Some(p) => p,
        None => {
            return None;
        },
    };
    let pat = lit_line_vec();
    let p4 = match expect(line, p3, &pat) {
        Some(p) => p,
        None => {
            return None;
        },
    };
    let (line_no, p5) = match parse_u64(line, p4) {
        Some(p) => p,
        None => {
            return None;
        },
    };
    if line_no > u32::MAX as u64 {
        return None;
    }
    let pat = lit_column_vec();
    let p6 = match expect(line, p5, &pat) {
        Some(p) => p,
        None => {
            return None;
        },
    };
    let (column, p7) = match parse_u64(line, p6) {
        Some(p) => p,
        None => {
            return None;
        },
    };
    if column > u32::MAX as u64 {
        return None;
    }
    let pat = lit_close_vec();
    let p8 = match expect(line, p7, &pat) {
        Some(p) => p,
        None => {
            return None;
        },
    };
    if p8 != line.len() {
        return None;
    }
    Some(
        Action::Location {
            address,
            file,
            line: line_no as u32,
            column: column as u32,
        },
    )
}

/// The fields of a `Rank` record, read from position `i` to the end
/// of the line.
pub open spec fn spec_parse_rank(l: Seq<u8>, i: int) -> Option<ActionV> {
    match spec_num_at(l, i) {
        Some((bit, p1)) => if bit <= u32::MAX as nat {
            match spec_lit_at(l, p1, lit_member()) {
                Some(p2) => match spec_quoted_at(l, p2) {
                    Some((member_name, p3)) => match spec_lit_at(l, p3, lit_const()) {
                        Some(p4) => match spec_quoted_at(l, p4) {
                            Some((const_name, p5)) => match spec_lit_at(l, p5, lit_close()) {
                                Some(p6) => if p6 == l.len() {
                                    Some(ActionV::Rank {
                                        bit: bit as u32,
                                        member_name: member_name,
                                        const_name: const_name,
                                    })
                                } else {
                                    None
                                },
                                None => None,
                            },
                            None => None,
                        },
                        None => None,
                    },
                    None => None,
                },
                None => None,
            }
        } else {
            None
        },
        None => None,
    }
}

fn parse_rank_fields(line: &Vec<u8>, i: usize) -> (r: Option<Action>)
    requires
        i <= line@.len(),
    ensures
        match r {
            Some(a) => spec_parse_rank(line@, i as int) == Some(a@),
            None => spec_parse_rank(line@, i as int) is None,
        },
{
    let (bit, p1) = match parse_u64(line, i) {
        Some(p) => p,
        None => {
            return None;
        },
    };
    if bit > u32::MAX as u64 {
        return None;
    }
    let pat = lit_member_vec();
    let p2 = match expect(line, p1, &pat) {
        Some(p) => p,
        None => {
            return None;
        },
    };
    let (member_name, p3) = match parse_quoted(line, p2) {
        Some(p) => p,
        None => {
            return None;
        },
    };
    let pat = lit_const_vec();
    let p4 = match expect(line, p3, &pat) {
        Some(p) => p,
        None => {
            return None;
        },
    };
    let (const_name, p5) = match parse_quoted(line, p4) {
        Some(p) => p,
        None => {
            return None;
        },
    };
    let pat = lit_close_vec();
    let p6 = match expect(line, p5, &pat) {
        Some(p) => p,
        None => {
            return None;
        },
    };
    if p6 != line.len() {
        return None;
    }
    Some(Action::Rank { bit: bit as u32, member_name, const_name })
}

/// The fields of an `Acquisition` record, read from position `i` to
/// the end of the line.
pub open spec fn spec_parse_acq(l: Seq<u8>, i: int) -> Option<ActionV> {
    match spec_num_at(l, i) {
        Some((older_rank, p1)) => if older_rank <= u32::MAX as nat {
            match spec_lit_at(l, p1, lit_older_loc()) {
                Some(p2) => match spec_num_at(l, p2) {
                    Some((older_location, p3)) => match spec_lit_at(l, p3, lit_newer_rank()) {
                        Some(p4) => match spec_num_at(l, p4) {
                            Some((newer_rank, p5)) => if newer_rank <= u32::MAX as nat {
                                match spec_lit_at(l, p5, lit_newer_loc()) {
                                    Some(p6) => match spec_num_at(l, p6) {
                                        Some((newer_location, p7)) => match spec_lit_at(
                                            l,
                                            p7,
                                            lit_close(),
                                        ) {
                                            Some(p8) => if p8 == l.len() {
                                                Some(ActionV::Acquisition {
                                                    older_rank: older_rank as u32,
                                                    older_location: older_location as u64,
                                                    newer_rank: newer_rank as u32,
                                                    newer_location: newer_location as u64,
                                                })
                                            } else {
                                                None
                                            },
                                            None => None,
                                        },
                                        None => None,
                                    },
                                    None => None,
                                }
                            } else {
                                None
                            },
                            None => None,
                        },
                        None => None,
                    },
                    None => None,
                },
                None => None,
            }
        } else {
            None
        },
        None => None,
    }
}

fn parse_acq_fields(line: &Vec<u8>, i: usize) -> (r: Option<Action>)
    requires
        i <= line@.len(),
    ensures
        match r {
            Some(a) => spec_parse_acq(line@, i as int) == Some(a@),
            None => spec_parse_acq(line@, i as int) is None,
        },
{
    let (older_rank, p1) = match parse_u64(line, i) {
        Some(p) => p,
        None => {
            return None;
        },
    };
    if older_rank > u32::MAX as u64 {
        return None;
    }
    let pat = lit_older_loc_vec();
    let p2 = match expect(line, p1, &pat) {
        Some(p) => p,
        None => {
            return None;
        },
    };
    let (older_location, p3) = match parse_u64(line, p2) {
        Some(p) => p,
        None => {
            return None;
        },
    };
    let pat = lit_newer_rank_vec();
    let p4 = match expect(line, p3, &pat) {
        Some(p) => p,
        None => {
            return None;
        },
    };
    let (newer_rank, p5) = match parse_u64(line, p4) {
        Some(p) => p,
        None => {
            return None;
        },
    };
    if newer_rank > u32::MAX as u64 {
        return None;
    }
    let pat = lit_newer_loc_vec();
    let p6 = match expect(line, p5, &pat) {
        Some(p) => p,
        None => {
            return None;
        },
    };
    let (newer_location, p7) = match parse_u64(line, p6) {
        Some(p) => p,
        None => {
            return None;
        },
    };
    let pat = lit_close_vec();
    let p8 = match expect(line, p7, &pat) {
        Some(p) => p,
        None => {
            return None;
        },
    };
    if p8 != line.len() {
        return None;
    }
    Some(
        Action::Acquisition {
            older_rank: older_rank as u32,
            older_location,
            newer_rank: newer_rank as u32,
            newer_location,
        },
    )
}

/// The structural reading of one line: which record head it carries
/// and the fields after it.
pub open spec fn spec_structural(l: Seq<u8>) -> Option<ActionV> {
    if spec_lit_at(l, 0, loc_head()) is Some {
        spec_parse_location(l, loc_head().len() as int)
    } else if spec_lit_at(l, 0, rank_head()) is Some {
        spec_parse_rank(l, rank_head().len() as int)
    } else if spec_lit_at(l, 0, acq_head()) is Some {
        spec_parse_acq(l, acq_head().len() as int)
    } else {
        None
    }
}

/// What one line of bytes means: the unique action whose canonical
/// encoding is exactly this line, if there is one.
#[verifier::opaque]
pub open spec fn spec_parse_action(l: Seq<u8>) -> Option<ActionV> {
    match spec_structural(l) {
        Some(av) => if l == spec_encode_action(av) {
            Some(av)
        } else {
            None
        },
        None => None,
    }
}

proof fn lemma_num_at_canonical(l: Seq<u8>, o: int, v: u64, next: u8)
    requires
        0 <= o,
        o + spec_dec_nat(v as nat).len() < l.len(),
        l.subrange(o, o + spec_dec_nat(v as nat).len()) == spec_dec_nat(v as nat),
        l[o + spec_dec_nat(v as nat).len()] == next,
        !is_digit(next),
    ensures
        spec_num_at(l, o) == Some((v as nat, o + spec_dec_nat(v as nat).len())),
{
    let d = spec_dec_nat(v as nat);
    lemma_dec_all_digits(v as nat);
    assert forall|k: int| o <= k < o + d.len() implies is_digit(l[k]) by {
        assert(l.subrange(o, o + d.len())[k - o] == l[k]);
        assert(d[k - o] == l[k]);
    }
    lemma_digit_run(l, o, o + d.len());
    lemma_from_digits_dec(v as nat);
}

proof fn lemma_quoted_at_canonical(l: Seq<u8>, o: int, s: Seq<u8>)
    requires
        0 <= o,
        o + spec_quote(s).len() <= l.len(),
        l.subrange(o, o + spec_quote(s).len()) == spec_quote(s),
    ensures
        spec_quoted_at(l, o) == Some((s, o + spec_quote(s).len())),
{
    let inner = spec_esc(s) + seq![34u8];
    assert(spec_quote(s) =~= seq![34u8] + inner);
    assert(l.subrange(o, o + 1 + inner.len()) == seq![34u8] + inner);
    lemma_peel(l, o, seq![34u8], inner);
    assert(l[o] == l.subrange(o, o + 1)[0]);
    assert(l[o] == 34);
    lemma_unquote_canonical(l, o + 1, s, Seq::empty());
    assert(Seq::empty() + s =~= s);
}

#[verifier::rlimit(80)]
#[verifier::spinoff_prover]
proof fn lemma_canonical_location(av: ActionV)
    requires
        av is Location,
    ensures
        spec_lit_at(spec_encode_action(av), 0, loc_head()) is Some,
        spec_parse_location(spec_encode_action(av), loc_head().len() as int) == Some(av),
{
    let l = spec_encode_action(av);
    let address = av->Location_address;
    let file = av->Location_file;
    let line = av->Location_line;
    let column = av->Location_column;
    let d1 = spec_dec_nat(address as nat);
    let q1 = spec_quote(file);
    let d2 = spec_dec_nat(line as nat);
    let d3 = spec_dec_nat(column as nat);
    let r9 = lit_close();
    let r8 = d3 + r9;
    let r7 = lit_column() + r8;
    let r6 = d2 + r7;
    let r5 = lit_line() + r6;
    let r4 = q1 + r5;
    let r3 = lit_file() + r4;
    let r2 = d1 + r3;
    let r1 = loc_head() + r2;
    assert(l =~= r1);
    let o1 = loc_head().len() as int;
    let o2 = o1 + d1.len();
    let o3 = o2 + lit_file().len();
    let o4 = o3 + q1.len();
    let o5 = o4 + lit_line().len();
    let o6 = o5 + d2.len();
    let o7 = o6 + lit_column().len();
    let o8 = o7 + d3.len();
    assert(l.subrange(0, l.len() as int) =~= l);
    lemma_peel(l, 0, loc_head(), r2);
    lemma_peel(l, o1, d1, r3);
    lemma_peel(l, o2, lit_file(), r4);
    lemma_peel(l, o3, q1, r5);
    lemma_peel(l, o4, lit_line(), r6);
    lemma_peel(l, o5, d2, r7);
    lemma_peel(l, o6, lit_column(), r8);
    lemma_peel(l, o7, d3, r9);
    assert(spec_lit_at(l, 0, loc_head()) == Some(o1));
    assert(l[o2] == l.subrange(o2, o3)[0] && lit_file()[0] == 44);
    lemma_num_at_canonical(l, o1, address, 44);
    assert(spec_lit_at(l, o2, lit_file()) == Some(o3));
    lemma_quoted_at_canonical(l, o3, file);
    assert(spec_lit_at(l, o4, lit_line()) == Some(o5));
    assert(l[o6] == l.subrange(o6, o7)[0] && lit_column()[0] == 44);
    lemma_num_at_canonical(l, o5, line as u64, 44);
    assert(spec_lit_at(l, o6, lit_column()) == Some(o7));
    assert(l[o8] == l.subrange(o8, o8 + 2)[0] && lit_close()[0] == 32);
    lemma_num_at_canonical(l, o7, column as u64, 32);
    assert(spec_lit_at(l, o8, lit_close()) == Some(o8 + 2));
    assert(o8 + 2 == l.len());
    assert(spec_parse_location(l, o1) == Some(av));
}

#[verifier::rlimit(80)]
#[verifier::spinoff_prover]
proof fn lemma_canonical_rank(av: ActionV)
    requires
        av is Rank,
    ensures
        spec_encode_action(av)[0] == 82,
        spec_lit_at(spec_encode_action(av), 0, rank_head()) is Some,
        spec_parse_rank(spec_encode_action(av), rank_head().len() as int) == Some(av),
{
    let l = spec_encode_action(av);
    let bit = av->Rank_bit;
    let member_name = av->Rank_member_name;
    let const_name = av->Rank_const_name;
    let d1 = spec_dec_nat(bit as nat);
    let q1 = spec_quote(member_name);
    let q2 = spec_quote(const_name);
    let r7 = lit_close();
    let r6 = q2 + r7;
    let r5 = lit_const() + r6;
    let r4 = q1 + r5;
    let r3 = lit_member() + r4;
    let r2 = d1 + r3;
    let r1 = rank_head() + r2;
    assert(l =~= r1);
    let o1 = rank_head().len() as int;
    let o2 = o1 + d1.len();
    let o3 = o2 + lit_member().len();
    let o4 = o3 + q1.len();
    let o5 = o4 + lit_const().len();
    let o6 = o5 + q2.len();
    assert(l.subrange(0, l.len() as int) =~= l);
    lemma_peel(l, 0, rank_head(), r2);
    lemma_peel(l, o1, d1, r3);
    lemma_peel(l, o2, lit_member(), r4);
    lemma_peel(l, o3, q1, r5);
    lemma_peel(l, o4, lit_const(), r6);
    lemma_peel(l, o5, q2, r7);
    assert(l[0] == l.subrange(0, o1)[0] && rank_head()[0] == 82);
    assert(spec_lit_at(l, 0, rank_head()) == Some(o1));
    assert(l[o2] == l.subrange(o2, o3)[0] && lit_member()[0] == 44);
    lemma_num_at_canonical(l, o1, bit as u64, 44);
    assert(spec_lit_at(l, o2, lit_member()) == Some(o3));
    lemma_quoted_at_canonical(l, o3, member_name);
    assert(spec_lit_at(l, o4, lit_const()) == Some(o5));
    lemma_quoted_at_canonical(l, o5, const_name);
    assert(spec_lit_at(l, o6, lit_close()) == Some(o6 + 2));
    assert(o6 + 2 == l.len());
    assert(spec_parse_rank(l, o1) == Some(av));
}

#[verifier::rlimit(80)]
#[verifier::spinoff_prover]
proof fn lemma_canonical_acq(av: ActionV)
    requires
        av is Acquisition,
    ensures
        spec_encode_action(av)[0] == 65,
        spec_lit_at(spec_encode_action(av), 0, acq_head()) is Some,
        spec_parse_acq(spec_encode_action(av), acq_head().len() as int) == Some(av),
{
    let l = spec_encode_action(av);
    let older_rank = av->Acquisition_older_rank;
    let older_location = av->Acquisition_older_location;
    let newer_rank = av->Acquisition_newer_rank;
    let newer_location = av->Acquisition_newer_location;
    let d1 = spec_dec_nat(older_rank as nat);
    let d2 = spec_dec_nat(older_location as nat);
    let d3 = spec_dec_nat(newer_rank as nat);
    let d4 = spec_dec_nat(newer_location as nat);
    let r9 = lit_close();
    let r8 = d4 + r9;
    let r7 = lit_newer_loc() + r8;
    let r6 = d3 + r7;
    let r5 = lit_newer_rank() + r6;
    let r4 = d2 + r5;
    let r3 = lit_older_loc() + r4;
    let r2 = d1 + r3;
    let r1 = acq_head() + r2;
    assert(l =~= r1);
    let o1 = acq_head().len() as int;
    let o2 = o1 + d1.len();
    let o3 = o2 + lit_older_loc().len();
    let o4 = o3 + d2.len();
    let o5 = o4 + lit_newer_rank().len();
    let o6 = o5 + d3.len();
    let o7 = o6 + lit_newer_loc().len();
    let o8 = o7 + d4.len();
    assert(l.subrange(0, l.len() as int) =~= l);
    lemma_peel(l, 0, acq_head(), r2);
    lemma_peel(l, o1, d1, r3);
    lemma_peel(l, o2, lit_older_loc(), r4);
    lemma_peel(l, o3, d2, r5);
    lemma_peel(l, o4, lit_newer_rank(), r6);
    lemma_peel(l, o5, d3, r7);
    lemma_peel(l, o6, lit_newer_loc(), r8);
    lemma_peel(l, o7, d4, r9);
    assert(l[0] == l.subrange(0, o1)[0] && acq_head()[0] == 65);
    assert(spec_lit_at(l, 0, acq_head()) == Some(o1));
    assert(l[o2] == l.subrange(o2, o3)[0] && lit_older_loc()[0] == 44);
    lemma_num_at_canonical(l, o1, older_rank as u64, 44);
    assert(spec_lit_at(l, o2, lit_older_loc()) == Some(o3));
    assert(l[o4] == l.subrange(o4, o5)[0] && lit_newer_rank()[0] == 44);
    lemma_num_at_canonical(l, o3, older_location, 44);
    assert(spec_lit_at(l, o4, lit_newer_rank()) == Some(o5));
    assert(l[o6] == l.subrange(o6, o7)[0] && lit_newer_loc()[0] == 44);
    lemma_num_at_canonical(l, o5, newer_rank as u64, 44);
    assert(spec_lit_at(l, o6, lit_newer_loc()) == Some(o7));
    assert(l[o8] == l.subrange(o8, o8 + 2)[0] && lit_close()[0] == 32);
    lemma_num_at_canonical(l, o7, newer_location, 32);
    assert(spec_lit_at(l, o8, lit_close()) == Some(o8 + 2));
    assert(o8 + 2 == l.len());
    assert(spec_parse_acq(l, o1) == Some(av));
}

#[verifier::rlimit(80)]
#[verifier::spinoff_prover]
proof fn lemma_structural_canonical(av: ActionV)
    ensures
        spec_structural(spec_encode_action(av)) == Some(av),
        spec_parse_action(spec_encode_action(av)) == Some(av),
{
    reveal(spec_parse_action);
    let l = spec_encode_action(av);
    match av {
        ActionV::Location { .. } => {
            lemma_canonical_location(av);
        },
        ActionV::Rank { .. } => {
            lemma_canonical_rank(av);
            assert(spec_lit_at(l, 0, loc_head()) is None) by {
                if 0 + loc_head().len() as int <= l.len() && l.subrange(0, 0 + loc_head().len() as int)
                    == loc_head() {
                    assert(l.subrange(0, 0 + loc_head().len() as int)[0] == l[0]);
                    assert(false);
                }
            }
        },
        ActionV::Acquisition { .. } => {
            lemma_canonical_acq(av);
            assert(spec_lit_at(l, 0, loc_head()) is None) by {
                if 0 + loc_head().len() as int <= l.len() && l.subrange(0, 0 + loc_head().len() as int)
                    == loc_head() {
                    assert(l.subrange(0, 0 + loc_head().len() as int)[0] == l[0]);
                    assert(false);
                }
            }
            assert(spec_lit_at(l, 0, rank_head()) is None) by {
                if 0 + rank_head().len() as int <= l.len() && l.subrange(0, 0 + rank_head().len() as int)
                    == rank_head() {
                    assert(l.subrange(0, 0 + rank_head().len() as int)[0] == l[0]);
                    assert(false);
                }
            }
        },
    }
}

/// Parses one log line. Exactly the canonical encodings are accepted:
/// the result is `Some(a)` if and only if the line is byte-for-byte
/// the encoding of `a`, so a round trip through [`encode_action`]
/// yields the original action, and any deviation - an unknown record
/// head, a misspelled field name, fields out of order, trailing bytes -
/// is rejected.
pub fn parse_action(line: &Vec<u8>) -> (r: Option<Action>)
    ensures
        r matches Some(a) ==> line@ == spec_encode_action(a@) && spec_parse_action(line@) == Some(
            a@,
        ),
        forall|av: ActionV| line@ == spec_encode_action(av) ==> (r matches Some(a) && a@ == av),
        r is None ==> spec_parse_action(line@) is None,
{
    let pat = loc_head_vec();
    let structural: Option<Action> = match expect(line, 0, &pat) {
        Some(_) => parse_location_fields(line, pat.len()),
        None => {
            let pat2 = rank_head_vec();
            match expect(line, 0, &pat2) {
                Some(_) => parse_rank_fields(line, pat2.len()),
                None => {
                    let pat3 = acq_head_vec();
                    match expect(line, 0, &pat3) {
                        Some(_) => parse_acq_fields(line, pat3.len()),
                        None => None,
                    }
                },
            }
        },
    };
    proof {
        reveal(spec_parse_action);
        assert(match structural {
            Some(a) => spec_structural(line@) == Some(a@),
            None => spec_structural(line@) is None,
        });
    }
    match structural {
        Some(a) => {
            let enc = encode_action(&a);
            if bytes_eq(&enc, line) {
                proof {
                    reveal(spec_parse_action);
                    assert forall|av: ActionV| line@ == spec_encode_action(av) implies a@ == av by {
                        lemma_structural_canonical(av);
                    }
                }
                Some(a)
            } else {
                proof {
                    reveal(spec_parse_action);
                    assert forall|av: ActionV| line@ != spec_encode_action(av) by {
                        if line@ == spec_encode_action(av) {
                            lemma_structural_canonical(av);
                            assert(av == a@);
                            assert(false);
                        }
                    }
                }
                None
            }
        },
        None => {
            proof {
                reveal(spec_parse_action);
                assert forall|av: ActionV| line@ != spec_encode_action(av) by {
                    if line@ == spec_encode_action(av) {
                        lemma_structural_canonical(av);
                        assert(false);
                    }
                }
            }
            None
        },
    }
}

/// The position of the first newline byte at or after `i`, or the
/// length of `l` if there is none.
pub open spec fn first_nl_from(l: Seq<u8>, i: int) -> int
    decreases l.len() - i when 0 <= i <= l.len()
{
    if i >= l.len() {
        l.len() as int
    } else if l[i] == 10 {
        i
    } else {
        first_nl_from(l, i + 1)
    }
}

proof fn lemma_first_nl_bounds(l: Seq<u8>, i: int)
    requires
        0 <= i <= l.len(),
    ensures
        i <= first_nl_from(l, i) <= l.len(),
    decreases l.len() - i,
{
    if i < l.len() && l[i] != 10 {
        lemma_first_nl_bounds(l, i + 1);
    }
}

proof fn lemma_first_nl_none(l: Seq<u8>, i: int)
    requires
        0 <= i <= l.len(),
        forall|k: int| i <= k < l.len() ==> l[k] != 10,
    ensures
        first_nl_from(l, i) == l.len(),
    decreases l.len() - i,
{
    if i < l.len() {
        lemma_first_nl_none(l, i + 1);
    }
}

proof fn lemma_first_nl_block(l: Seq<u8>, i: int, a: Seq<u8>)
    requires
        0 <= i,
        i + a.len() < l.len(),
        l.subrange(i, i + a.len()) == a,
        forall|k: int| 0 <= k < a.len() ==> a[k] != 10,
        l[i + a.len()] == 10,
    ensures
        first_nl_from(l, i) == i + a.len(),
    decreases a.len(),
{
    if a.len() == 0 {
    } else {
        assert(l[i] == l.subrange(i, i + a.len())[0]);
        assert(l[i] != 10);
        assert(l.subrange(i + 1, i + 1 + (a.len() - 1)) =~= a.skip(1)) by {
            assert forall|k: int| 0 <= k < a.len() - 1 implies l.subrange(
                i + 1,
                i + 1 + (a.len() - 1),
            )[k] == a.skip(1)[k] by {
                assert(l.subrange(i, i + a.len())[k + 1] == l[i + 1 + k]);
            }
        }
        lemma_first_nl_block(l, i + 1, a.skip(1));
    }
}

/// The records of a log file read from position `i`: one record per
/// newline-terminated line. Bytes after the last newline are a record
/// that was never completely flushed and are dropped. A terminated
/// line that is not a canonical record is an error carrying the index
/// of that line, counted from `i`.
pub open spec fn spec_parse_log_from(l: Seq<u8>, i: int) -> Result<Seq<ActionV>, int>
    decreases l.len() - i when 0 <= i <= l.len()
    via spec_parse_log_from_decreases
{
    let e = first_nl_from(l, i);
    if e == l.len() {
        Ok(Seq::empty())
    } else {
        match spec_parse_action(l.subrange(i, e)) {
            Some(av) => match spec_parse_log_from(l, e + 1) {
                Ok(s) => Ok(seq![av] + s),
                Err(k) => Err(k + 1),
            },
            None => Err(0),
        }
    }
}

#[via_fn]
proof fn spec_parse_log_from_decreases(l: Seq<u8>, i: int) {
    lemma_first_nl_bounds(l, i);
}

/// The records of a whole log file.
pub open spec fn spec_parse_log(l: Seq<u8>) -> Result<Seq<ActionV>, int> {
    spec_parse_log_from(l, 0)
}

/// A whole log: each record's canonical line, each terminated by a
/// newline.
pub open spec fn spec_encode_log(s: Seq<ActionV>) -> Seq<u8>
    decreases s.len(),
{
    if s.len() == 0 {
        Seq::empty()
    } else {
        spec_encode_action(s[0]) + seq![10u8] + spec_encode_log(s.skip(1))
    }
}

proof fn lemma_encode_log_snoc(s: Seq<ActionV>, av: ActionV)
    ensures
        spec_encode_log(s.push(av)) == spec_encode_log(s) + spec_encode_action(av) + seq![10u8],
    decreases s.len(),
{
    if s.len() == 0 {
        assert(s.push(av).skip(1) =~= Seq::<ActionV>::empty());
        assert(s.push(av)[0] == av);
        assert(spec_encode_log(Seq::<ActionV>::empty()) == Seq::<u8>::empty());
        assert(s =~= Seq::<ActionV>::empty());
        assert(spec_encode_log(s.push(av)) == spec_encode_action(av) + seq![10u8]
            + Seq::<u8>::empty());
        assert(spec_encode_log(s.push(av)) =~= spec_encode_log(s) + spec_encode_action(av)
            + seq![10u8]);
    } else {
        assert(s.push(av).skip(1) =~= s.skip(1).push(av));
        assert(s.push(av)[0] == s[0]);
        lemma_encode_log_snoc(s.skip(1), av);
        assert(spec_encode_log(s.push(av)) =~= spec_encode_log(s) + spec_encode_action(av)
            + seq![10u8]);
    }
}

/// Encodes a whole log: each action's line followed by a newline, in
/// order.
pub fn encode_log(actions: &Vec<Action>) -> (out: Vec<u8>)
    ensures
        out@ == spec_encode_log(action_views(actions@)),
{
    let mut out: Vec<u8> = Vec::new();
    let mut i: usize = 0;
    while i < actions.len()
        invariant
            i <= actions@.len(),
            out@ == spec_encode_log(action_views(actions@).take(i as int)),
        decreases actions@.len() - i,
    {
        let mut line = encode_action(&actions[i]);
        out.append(&mut line);
        out.push(10);
        proof {
            let views = action_views(actions@);
            assert(views.take(i as int).push(views[i as int]) =~= views.take(i + 1));
            lemma_encode_log_snoc(views.take(i as int), views[i as int]);
            assert(out@ =~= spec_encode_log(views.take(i + 1)));
        }
        i = i + 1;
    }
    proof {
        assert(action_views(actions@).take(actions@.len() as int) =~= action_views(actions@));
    }
    out
}

/// Reads a whole log file. Lines are newline-terminated records; a
/// trailing fragment with no final newline is a not-yet-flushed record
/// and is dropped; a terminated line that is not a canonical record
/// fails with the index of that line.
#[verifier::rlimit(80)]
#[verifier::spinoff_prover]
pub fn parse_log(bytes: &Vec<u8>) -> (r: Result<Vec<Action>, usize>)
    ensures
        r matches Ok(v) ==> spec_parse_log(bytes@) == Ok::<Seq<ActionV>, int>(action_views(v@)),
        r matches Err(k) ==> spec_parse_log(bytes@) == Err::<Seq<ActionV>, int>(k as int),
{
    let mut out: Vec<Action> = Vec::new();
    let mut pos: usize = 0;
    let n = bytes.len();
    loop
        invariant
            n == bytes@.len(),
            pos <= bytes@.len(),
            bytes@.len() <= usize::MAX,
            out@.len() <= pos,
            (match spec_parse_log_from(bytes@, pos as int) {
                Ok(s) => spec_parse_log(bytes@) == Ok::<Seq<ActionV>, int>(
                    action_views(out@) + s,
                ),
                Err(k) => spec_parse_log(bytes@) == Err::<Seq<ActionV>, int>(out@.len() + k),
            }),
        decreases bytes@.len() - pos,
    {
        let mut e: usize = pos;
        while e < bytes.len() && bytes[e] != 10
            invariant
                pos <= e <= bytes@.len(),
                bytes@.len() <= usize::MAX,
                first_nl_from(bytes@, pos as int) == first_nl_from(bytes@, e as int),
            decreases bytes@.len() - e,
        {
            e = e + 1;
        }
        proof {
            assert(first_nl_from(bytes@, pos as int) == e);
        }
        if e == bytes.len() {
            proof {
                assert(spec_parse_log_from(bytes@, pos as int) == Ok::<Seq<ActionV>, int>(
                    Seq::empty(),
                ));
                assert(action_views(out@) + Seq::<ActionV>::empty() =~= action_views(out@));
            }
            return Ok(out);
        }
        let mut line: Vec<u8> = Vec::new();
        let mut j: usize = pos;
        while j < e
            invariant
                pos <= j <= e <= bytes@.len(),
                line@ == bytes@.subrange(pos as int, j as int),
            decreases e - j,
        {
            line.push(bytes[j]);
            proof {
                assert(bytes@.subrange(pos as int, j as int).push(bytes@[j as int]) =~= bytes@
                    .subrange(pos as int, j + 1));
            }
            j = j + 1;
        }
        match parse_action(&line) {
            Some(a) => {
                proof {
                    let views = action_views(out@);
                    let views2 = action_views(out@.push(a));
                    assert(views2 =~= views + seq![a@]);
                    match spec_parse_log_from(bytes@, e + 1) {
                        Ok(s2) => {
                            assert(spec_parse_log_from(bytes@, pos as int)
                                == Ok::<Seq<ActionV>, int>(seq![a@] + s2));
                            assert(views + (seq![a@] + s2) =~= views2 + s2);
                        },
                        Err(k2) => {
                            assert(spec_parse_log_from(bytes@, pos as int)
                                == Err::<Seq<ActionV>, int>(k2 + 1));
                        },
                    }
                }
                out.push(a);
                pos = e + 1;
            },
            None => {
                proof {
                    assert(spec_parse_log_from(bytes@, pos as int) == Err::<Seq<ActionV>, int>(0));
                }
                return Err(out.len());
            },
        }
    }
}

/// True when `s` holds no newline byte.
pub open spec fn no_nl(s: Seq<u8>) -> bool {
    forall|k: int| 0 <= k < s.len() ==> s[k] != 10
}

proof fn lemma_concat_no_nl(a: Seq<u8>, b: Seq<u8>)
    requires
        no_nl(a),
        no_nl(b),
    ensures
        no_nl(a + b),
{
    assert forall|k: int| 0 <= k < (a + b).len() implies (a + b)[k] != 10 by {
        if k < a.len() {
            assert((a + b)[k] == a[k]);
        } else {
            assert((a + b)[k] == b[k - a.len()]);
        }
    }
}

proof fn lemma_dec_no_nl(v: nat)
    ensures
        no_nl(spec_dec_nat(v)),
{
    lemma_dec_all_digits(v);
}

proof fn lemma_esc_no_nl(s: Seq<u8>)
    ensures
        no_nl(spec_esc(s)),
    decreases s.len(),
{
    if s.len() > 0 {
        lemma_esc_no_nl(s.skip(1));
        assert(no_nl(esc_byte(s[0])));
        lemma_concat_no_nl(esc_byte(s[0]), spec_esc(s.skip(1)));
    }
}

proof fn lemma_quote_no_nl(s: Seq<u8>)
    ensures
        no_nl(spec_quote(s)),
{
    lemma_esc_no_nl(s);
    assert(no_nl(seq![34u8]));
    lemma_concat_no_nl(seq![34u8], spec_esc(s));
    lemma_concat_no_nl(seq![34u8] + spec_esc(s), seq![34u8]);
}

/// An encoded record never holds a raw newline: within a string the
/// newline byte is escaped, and everything else is literal text and
/// decimal digits. Log files therefore split unambiguously at
/// newlines.
pub proof fn lemma_encode_no_nl(av: ActionV)
    ensures
        no_nl(spec_encode_action(av)),
{
    match av {
        ActionV::Location { address, file, line, column } => {
            let h = loc_head();
            let d1 = spec_dec_nat(address as nat);
            let q1 = spec_quote(file);
            let d2 = spec_dec_nat(line as nat);
            let d3 = spec_dec_nat(column as nat);
            assert(no_nl(h));
            lemma_dec_no_nl(address as nat);
            lemma_quote_no_nl(file);
            lemma_dec_no_nl(line as nat);
            lemma_dec_no_nl(column as nat);
            assert(no_nl(lit_file()) && no_nl(lit_line()) && no_nl(lit_column()) && no_nl(
                lit_close(),
            ));
            lemma_concat_no_nl(h, d1);
            lemma_concat_no_nl(h + d1, lit_file());
            lemma_concat_no_nl(h + d1 + lit_file(), q1);
            lemma_concat_no_nl(h + d1 + lit_file() + q1, lit_line());
            lemma_concat_no_nl(h + d1 + lit_file() + q1 + lit_line(), d2);
            lemma_concat_no_nl(h + d1 + lit_file() + q1 + lit_line() + d2, lit_column());
            lemma_concat_no_nl(h + d1 + lit_file() + q1 + lit_line() + d2 + lit_column(), d3);
            lemma_concat_no_nl(
                h + d1 + lit_file() + q1 + lit_line() + d2 + lit_column() + d3,
                lit_close(),
            );
        },
        ActionV::Rank { bit, member_name, const_name } => {
            let h = rank_head();
            let d1 = spec_dec_nat(bit as nat);
            let q1 = spec_quote(member_name);
            let q2 = spec_quote(const_name);
            assert(no_nl(h));
            lemma_dec_no_nl(bit as nat);
            lemma_quote_no_nl(member_name);
            lemma_quote_no_nl(const_name);
            assert(no_nl(lit_member()) && no_nl(lit_const()) && no_nl(lit_close()));
            lemma_concat_no_nl(h, d1);
            lemma_concat_no_nl(h + d1, lit_member());
            lemma_concat_no_nl(h + d1 + lit_member(), q1);
            lemma_concat_no_nl(h + d1 + lit_member() + q1, lit_const());
            lemma_concat_no_nl(h + d1 + lit_member() + q1 + lit_const(), q2);
            lemma_concat_no_nl(h + d1 + lit_member() + q1 + lit_const() + q2, lit_close());
        },
        ActionV::Acquisition { older_rank, older_location, newer_rank, newer_location } => {
            let h = acq_head();
            let d1 = spec_dec_nat(older_rank as nat);
            let d2 = spec_dec_nat(older_location as nat);
            let d3 = spec_dec_nat(newer_rank as nat);
            let d4 = spec_dec_nat(newer_location as nat);
            assert(no_nl(h));
            lemma_dec_no_nl(older_rank as nat);
            lemma_dec_no_nl(older_location as nat);
            lemma_dec_no_nl(newer_rank as nat);
            lemma_dec_no_nl(newer_location as nat);
            assert(no_nl(lit_older_loc()) && no_nl(lit_newer_rank()) && no_nl(lit_newer_loc())
                && no_nl(lit_close()));
            lemma_concat_no_nl(h, d1);
            lemma_concat_no_nl(h + d1, lit_older_loc());
            lemma_concat_no_nl(h + d1 + lit_older_loc(), d2);
            lemma_concat_no_nl(h + d1 + lit_older_loc() + d2, lit_newer_rank());
            lemma_concat_no_nl(h + d1 + lit_older_loc() + d2 + lit_newer_rank(), d3);
            lemma_concat_no_nl(
                h + d1 + lit_older_loc() + d2 + lit_newer_rank() + d3,
                lit_newer_loc(),
            );
            lemma_concat_no_nl(
                h + d1 + lit_older_loc() + d2 + lit_newer_rank() + d3 + lit_newer_loc(),
                d4,
            );
        },
    }
}

#[verifier::rlimit(90)]
#[verifier::spinoff_prover]
proof fn lemma_parse_log_from_enc(l: Seq<u8>, i: int, s: Seq<ActionV>, tail: Seq<u8>)
    requires
        0 <= i <= l.len(),
        l.subrange(i, l.len() as int) == spec_encode_log(s) + tail,
        no_nl(tail),
    ensures
        spec_parse_log_from(l, i) == Ok::<Seq<ActionV>, int>(s),
    decreases s.len(),
{
    if s.len() == 0 {
        assert(spec_encode_log(s) == Seq::<u8>::empty());
        assert(spec_encode_log(s) + tail =~= tail);
        assert forall|k: int| i <= k < l.len() implies l[k] != 10 by {
            assert(l.subrange(i, l.len() as int)[k - i] == l[k]);
            assert(tail[k - i] != 10);
        }
        lemma_first_nl_none(l, i);
        assert(s =~= Seq::<ActionV>::empty());
    } else {
        let a0 = spec_encode_action(s[0]);
        let rest = spec_encode_log(s.skip(1));
        let x = seq![10u8] + (rest + tail);
        assert(l.subrange(i, l.len() as int) =~= a0 + x);
        assert(i + a0.len() + x.len() == l.len());
        lemma_peel(l, i, a0, x);
        let e = i + a0.len();
        lemma_peel(l, e, seq![10u8], rest + tail);
        assert(l[e] == l.subrange(e, e + 1)[0]);
        assert(l[e] == 10);
        lemma_encode_no_nl(s[0]);
        lemma_first_nl_block(l, i, a0);
        lemma_structural_canonical(s[0]);
        assert(spec_parse_action(l.subrange(i, e)) == Some(s[0]));
        lemma_parse_log_from_enc(l, e + 1, s.skip(1), tail);
        assert(seq![s[0]] + s.skip(1) =~= s);
    }
}

/// Law: writing a log of records and parsing it back yields exactly
/// the original records, however many there are.
pub proof fn lemma_log_round_trip(s: Seq<ActionV>)
    ensures
        spec_parse_log(spec_encode_log(s)) == Ok::<Seq<ActionV>, int>(s),
{
    let l = spec_encode_log(s);
    assert(l.subrange(0, l.len() as int) =~= l);
    assert(spec_encode_log(s) + Seq::<u8>::empty() =~= l);
    lemma_parse_log_from_enc(l, 0, s, Seq::empty());
}

/// Law: a log whose last record was cut off before its newline was
/// flushed still parses to exactly the records of its complete
/// prefix; the unterminated fragment is dropped, never an error.
pub proof fn lemma_incomplete_tail_dropped(s: Seq<ActionV>, tail: Seq<u8>)
    requires
        no_nl(tail),
    ensures
        spec_parse_log(spec_encode_log(s) + tail) == Ok::<Seq<ActionV>, int>(s),
{
    let l = spec_encode_log(s) + tail;
    assert(l.subrange(0, l.len() as int) =~= l);
    lemma_parse_log_from_enc(l, 0, s, tail);
}
} // verus!
