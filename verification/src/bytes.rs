//! Byte-sequence helpers shared by the parsers: character classes, decimal
//! numbers, searching and splitting. Every executable function is pinned to a
//! spec-level mirror so that the grammar specs can be stated purely over
//! `Seq<u8>`.
use vstd::prelude::*;

verus! {

pub open spec fn is_digit(b: u8) -> bool {
    0x30 <= b <= 0x39
}

pub open spec fn is_space(b: u8) -> bool {
    b == 0x20 || b == 0x09 || b == 0x0a || b == 0x0d
}

pub open spec fn is_alpha(b: u8) -> bool {
    (0x41 <= b <= 0x5a) || (0x61 <= b <= 0x7a)
}

/// Characters allowed in a semver pre-release or build identifier.
pub open spec fn is_ident_byte(b: u8) -> bool {
    is_digit(b) || is_alpha(b) || b == 0x2d
}

pub open spec fn all_digits(s: Seq<u8>) -> bool {
    forall|i: int| 0 <= i < s.len() ==> is_digit(#[trigger] s[i])
}

pub open spec fn all_ident_bytes(s: Seq<u8>) -> bool {
    forall|i: int| 0 <= i < s.len() ==> is_ident_byte(#[trigger] s[i])
}

/// The decimal value of a digit string, accumulated left to right.
pub open spec fn dec_value_acc(s: Seq<u8>, acc: int) -> int
    decreases s.len(),
{
    if s.len() == 0 {
        acc
    } else {
        dec_value_acc(s.drop_first(), acc * 10 + (s[0] - 0x30))
    }
}

pub open spec fn dec_value(s: Seq<u8>) -> int {
    dec_value_acc(s, 0)
}

/// A digit string that denotes a `u64`.
pub open spec fn is_u64_digits(s: Seq<u8>) -> bool {
    s.len() > 0 && all_digits(s) && dec_value(s) <= u64::MAX
}

/// A semver numeric identifier: digits, no leading zero (except "0" itself).
pub open spec fn is_numeric_ident(s: Seq<u8>) -> bool {
    s.len() > 0 && all_digits(s) && (s.len() == 1 || s[0] != 0x30)
}

pub proof fn lemma_dec_value_acc_grows(s: Seq<u8>, acc: int)
    requires
        all_digits(s),
        acc >= 0,
    ensures
        dec_value_acc(s, acc) >= acc,
    decreases s.len(),
{
    if s.len() > 0 {
        assert(is_digit(s[0]));
        lemma_dec_value_acc_grows(s.drop_first(), acc * 10 + (s[0] - 0x30));
    }
}

proof fn lemma_dec_acc_append(s: Seq<u8>, b: u8, acc: int)
    ensures
        dec_value_acc(s.push(b), acc) == dec_value_acc(s, acc) * 10 + (b - 0x30),
    decreases s.len(),
{
    if s.len() == 0 {
        assert(s.push(b)[0] == b);
        assert(s.push(b).drop_first() =~= Seq::<u8>::empty());
        assert(dec_value_acc(s.push(b), acc) == dec_value_acc(
            s.push(b).drop_first(),
            acc * 10 + (b - 0x30),
        ));
    } else {
        assert(s.push(b)[0] == s[0]);
        assert(s.push(b).drop_first() =~= s.drop_first().push(b));
        let acc2 = acc * 10 + (s[0] - 0x30);
        lemma_dec_acc_append(s.drop_first(), b, acc2);
        assert(dec_value_acc(s.push(b), acc) == dec_value_acc(s.drop_first().push(b), acc2));
        assert(dec_value_acc(s, acc) == dec_value_acc(s.drop_first(), acc2));
    }
}

/// Parses a whole byte string as an unsigned decimal number.
/// Returns `None` on the empty string, a non-digit, or overflow.
pub fn parse_u64(s: &[u8]) -> (r: Option<u64>)
    ensures
        match r {
            Some(v) => is_u64_digits(s@) && v == dec_value(s@),
            None => !is_u64_digits(s@),
        },
{
    if s.len() == 0 {
        return None;
    }
    let mut acc: u64 = 0;
    let mut i: usize = 0;
    proof {
        assert(s@.subrange(0, 0) =~= Seq::<u8>::empty());
        assert(s@.subrange(0, s@.len() as int) =~= s@);
    }
    while i < s.len()
        invariant
            0 <= i <= s@.len(),
            s@.len() > 0,
            all_digits(s@.subrange(0, i as int)),
            acc == dec_value(s@.subrange(0, i as int)),
            dec_value(s@) == dec_value_acc(s@.subrange(i as int, s@.len() as int), acc as int),
        decreases s@.len() - i,
    {
        let b = s[i];
        if b < 0x30 || b > 0x39 {
            proof {
                assert(!is_digit(s@[i as int]));
            }
            return None;
        }
        let d: u64 = (b - 0x30) as u64;
        proof {
            let rest = s@.subrange(i as int, s@.len() as int);
            assert(rest[0] == s@[i as int]);
            assert(rest.drop_first() =~= s@.subrange(i as int + 1, s@.len() as int));
        }
        if acc > (u64::MAX - d) / 10 {
            proof {
                let next = acc as int * 10 + d;
                let m: int = u64::MAX - d;
                vstd::arithmetic::div_mod::lemma_fundamental_div_mod(m, 10);
                vstd::arithmetic::div_mod::lemma_mod_bound(m, 10);
                assert(acc as int * 10 >= (m / 10 + 1) * 10);
                assert(next > u64::MAX);
                if all_digits(s@) {
                    let tail = s@.subrange(i as int + 1, s@.len() as int);
                    assert(all_digits(tail)) by {
                        assert(forall|k: int| 0 <= k < tail.len() ==> tail[k] == #[trigger] s@[k
                            + i + 1]);
                    }
                    lemma_dec_value_acc_grows(tail, next);
                    assert(dec_value(s@) > u64::MAX);
                }
            }
            return None;
        }
        proof {
            let m: int = u64::MAX - d;
            vstd::arithmetic::div_mod::lemma_fundamental_div_mod(m, 10);
            vstd::arithmetic::div_mod::lemma_mod_bound(m, 10);
            assert(acc as int * 10 <= (m / 10) * 10);
            assert(acc as int * 10 + d <= u64::MAX);
            lemma_dec_acc_append(s@.subrange(0, i as int), s@[i as int], 0);
            assert(s@.subrange(0, i as int + 1) =~= s@.subrange(0, i as int).push(s@[i as int]));
            let pre = s@.subrange(0, i as int + 1);
            assert(all_digits(pre)) by {
                assert(forall|k: int| 0 <= k < pre.len() ==> pre[k] == #[trigger] s@[k]);
            }
        }
        acc = acc * 10 + d;
        i = i + 1;
    }
    proof {
        assert(s@.subrange(0, s@.len() as int) =~= s@);
        assert(s@.subrange(s@.len() as int, s@.len() as int) =~= Seq::<u8>::empty());
    }
    Some(acc)
}

/// Index of the first occurrence of `b` in `s`, if any.
pub open spec fn spec_find(s: Seq<u8>, b: u8) -> Option<int>
    decreases s.len(),
{
    if s.len() == 0 {
        None
    } else if s[0] == b {
        Some(0)
    } else {
        match spec_find(s.drop_first(), b) {
            Some(i) => Some(i + 1),
            None => None,
        }
    }
}

pub proof fn lemma_spec_find(s: Seq<u8>, b: u8)
    ensures
        match spec_find(s, b) {
            Some(i) => 0 <= i < s.len() && s[i] == b && forall|k: int| 0 <= k < i ==> s[k] != b,
            None => forall|k: int| 0 <= k < s.len() ==> s[k] != b,
        },
    decreases s.len(),
{
    if s.len() > 0 && s[0] != b {
        lemma_spec_find(s.drop_first(), b);
        match spec_find(s.drop_first(), b) {
            Some(i) => {
                assert(s[i + 1] == s.drop_first()[i]);
                assert forall|k: int| 0 <= k < i + 1 implies s[k] != b by {
                    if k >= 1 {
                        assert(s[k] == s.drop_first()[k - 1]);
                    }
                }
            },
            None => {
                assert forall|k: int| 0 <= k < s.len() implies s[k] != b by {
                    if k >= 1 {
                        assert(s[k] == s.drop_first()[k - 1]);
                    }
                }
            },
        }
    }
}

pub fn find_byte(s: &[u8], b: u8) -> (r: Option<usize>)
    ensures
        match r {
            Some(i) => spec_find(s@, b) == Some(i as int),
            None => spec_find(s@, b) is None,
        },
{
    proof {
        lemma_spec_find(s@, b);
    }
    let mut i: usize = 0;
    while i < s.len()
        invariant
            0 <= i <= s@.len(),
            forall|k: int| 0 <= k < i ==> s@[k] != b,
            match spec_find(s@, b) {
                Some(j) => 0 <= j < s@.len() && s@[j] == b && forall|k: int|
                    0 <= k < j ==> s@[k] != b,
                None => forall|k: int| 0 <= k < s@.len() ==> s@[k] != b,
            },
        decreases s@.len() - i,
    {
        if s[i] == b {
            return Some(i);
        }
        i = i + 1;
    }
    None
}

/// The input with leading and trailing whitespace removed.
pub open spec fn spec_trim(s: Seq<u8>) -> Seq<u8>
    decreases s.len(),
{
    if s.len() == 0 {
        s
    } else if is_space(s[0]) {
        spec_trim(s.drop_first())
    } else if is_space(s.last()) {
        spec_trim(s.drop_last())
    } else {
        s
    }
}

pub fn is_space_exec(b: u8) -> (r: bool)
    ensures
        r == is_space(b),
{
    b == 0x20 || b == 0x09 || b == 0x0a || b == 0x0d
}

pub fn is_digit_exec(b: u8) -> (r: bool)
    ensures
        r == is_digit(b),
{
    0x30 <= b && b <= 0x39
}

pub fn is_ident_byte_exec(b: u8) -> (r: bool)
    ensures
        r == is_ident_byte(b),
{
    (0x30 <= b && b <= 0x39) || (0x41 <= b && b <= 0x5a) || (0x61 <= b && b <= 0x7a) || b == 0x2d
}

pub fn trim(s: &[u8]) -> (r: Vec<u8>)
    ensures
        r@ == spec_trim(s@),
    decreases s@.len(),
{
    if s.len() == 0 {
        Vec::new()
    } else if is_space_exec(s[0]) {
        let sub = vstd::slice::slice_subrange(s, 1, s.len());
        proof {
            assert(sub@ =~= s@.drop_first());
        }
        trim(sub)
    } else {
        let last = s[s.len() - 1];
        if is_space_exec(last) {
            let sub = vstd::slice::slice_subrange(s, 0, s.len() - 1);
            proof {
                assert(sub@ =~= s@.drop_last());
            }
            trim(sub)
        } else {
            vstd::slice::slice_to_vec(s)
        }
    }
}

/// Index of the first occurrence of the two-byte pattern `b0 b1`.
pub open spec fn spec_find2(s: Seq<u8>, b0: u8, b1: u8) -> Option<int>
    decreases s.len(),
{
    if s.len() < 2 {
        None
    } else if s[0] == b0 && s[1] == b1 {
        Some(0)
    } else {
        match spec_find2(s.drop_first(), b0, b1) {
            Some(i) => Some(i + 1),
            None => None,
        }
    }
}

pub proof fn lemma_spec_find2(s: Seq<u8>, b0: u8, b1: u8)
    ensures
        match spec_find2(s, b0, b1) {
            Some(i) => 0 <= i && i + 1 < s.len() && s[i] == b0 && s[i + 1] == b1,
            None => true,
        },
    decreases s.len(),
{
    if s.len() >= 2 && !(s[0] == b0 && s[1] == b1) {
        lemma_spec_find2(s.drop_first(), b0, b1);
    }
}

pub fn find_pair(s: &[u8], b0: u8, b1: u8) -> (r: Option<usize>)
    ensures
        match r {
            Some(i) => spec_find2(s@, b0, b1) == Some(i as int),
            None => spec_find2(s@, b0, b1) is None,
        },
    decreases s@.len(),
{
    if s.len() < 2 {
        None
    } else if s[0] == b0 && s[1] == b1 {
        Some(0)
    } else {
        let sub = vstd::slice::slice_subrange(s, 1, s.len());
        proof {
            assert(sub@ =~= s@.drop_first());
        }
        match find_pair(sub, b0, b1) {
            Some(i) => {
                proof {
                    lemma_spec_find2(sub@, b0, b1);
                }
                Some(i + 1)
            },
            None => None,
        }
    }
}

/// Splits `s` at every occurrence of separator byte `b`; separators are not
/// kept, empty pieces are.
pub open spec fn spec_split(s: Seq<u8>, b: u8) -> Seq<Seq<u8>>
    decreases s.len(),
    via spec_split_decreases
{
    match spec_find(s, b) {
        Some(i) => seq![s.subrange(0, i)] + spec_split(s.subrange(i + 1, s.len() as int), b),
        None => seq![s],
    }
}

#[via_fn]
proof fn spec_split_decreases(s: Seq<u8>, b: u8) {
    lemma_spec_find(s, b);
}

pub proof fn lemma_spec_split_len(s: Seq<u8>, b: u8)
    ensures
        spec_split(s, b).len() >= 1,
    decreases s.len(),
{
    match spec_find(s, b) {
        Some(i) => {
            lemma_spec_find(s, b);
            lemma_spec_split_len(s.subrange(i + 1, s.len() as int), b);
        },
        None => {},
    }
}

pub fn split_byte(s: &[u8], b: u8) -> (r: Vec<Vec<u8>>)
    ensures
        r@.len() == spec_split(s@, b).len(),
        forall|k: int| 0 <= k < r@.len() ==> r@[k]@ == #[trigger] spec_split(s@, b)[k],
    decreases s@.len(),
{
    proof {
        lemma_spec_find(s@, b);
    }
    match find_byte(s, b) {
        Some(i) => {
            let n = s.len();
            proof {
                assert(spec_find(s@, b) == Some(i as int));
                assert((i as int) < s@.len());
            }
            let head = vstd::slice::slice_to_vec(vstd::slice::slice_subrange(s, 0, i));
            let tail = vstd::slice::slice_subrange(s, i + 1, n);
            let rest = split_byte(tail, b);
            let mut out: Vec<Vec<u8>> = Vec::new();
            out.push(head);
            let mut j: usize = 0;
            while j < rest.len()
                invariant
                    0 <= j <= rest@.len(),
                    out@.len() == j + 1,
                    out@[0]@ == s@.subrange(0, i as int),
                    tail@ == s@.subrange(i as int + 1, s@.len() as int),
                    rest@.len() == spec_split(tail@, b).len(),
                    forall|k: int|
                        0 <= k < rest@.len() ==> rest@[k]@ == #[trigger] spec_split(tail@, b)[k],
                    forall|k2: int| 0 <= k2 < j ==> out@[k2 + 1]@ == #[trigger] rest@[k2]@,
                decreases rest@.len() - j,
            {
                let piece = vstd::slice::slice_to_vec(rest[j].as_slice());
                out.push(piece);
                j = j + 1;
            }
            proof {
                let whole = spec_split(s@, b);
                assert(whole == seq![s@.subrange(0, i as int)] + spec_split(tail@, b));
                assert(whole.len() == 1 + spec_split(tail@, b).len());
                assert(whole[0] == s@.subrange(0, i as int));
                assert(forall|k: int|
                    1 <= k < whole.len() ==> #[trigger] whole[k] == spec_split(tail@, b)[k - 1]);
                assert forall|k: int| 0 <= k < out@.len() implies out@[k]@ == #[trigger] whole[k] by {
                    if k >= 1 {
                        assert(out@[k]@ == rest@[k - 1]@);
                    }
                }
            }
            out
        },
        None => {
            let only = vstd::slice::slice_to_vec(s);
            let mut out: Vec<Vec<u8>> = Vec::new();
            out.push(only);
            proof {
                assert(spec_split(s@, b) == seq![s@]);
                assert(spec_split(s@, b)[0] == s@);
            }
            out
        },
    }
}

pub fn clone_bytes(s: &[u8]) -> (r: Vec<u8>)
    ensures
        r@ == s@,
{
    vstd::slice::slice_to_vec(s)
}

/// Appends `src` to `dst`.
pub fn extend_bytes(dst: &mut Vec<u8>, src: &[u8])
    ensures
        final(dst)@ == old(dst)@ + src@,
{
    let mut i: usize = 0;
    while i < src.len()
        invariant
            0 <= i <= src@.len(),
            dst@ == old(dst)@ + src@.subrange(0, i as int),
        decreases src@.len() - i,
    {
        dst.push(src[i]);
        proof {
            assert(old(dst)@ + src@.subrange(0, i as int + 1) =~= (old(dst)@ + src@.subrange(
                0,
                i as int,
            )).push(src@[i as int]));
        }
        i = i + 1;
    }
    proof {
        assert(src@.subrange(0, src@.len() as int) =~= src@);
    }
}

/// Byte equality of two slices.
pub fn bytes_eq(a: &[u8], b: &[u8]) -> (r: bool)
    ensures
        r == (a@ == b@),
{
    if a.len() != b.len() {
        proof {
            assert(a@.len() != b@.len());
        }
        return false;
    }
    let mut i: usize = 0;
    while i < a.len()
        invariant
            0 <= i <= a@.len(),
            a@.len() == b@.len(),
            forall|k: int| 0 <= k < i ==> a@[k] == b@[k],
        decreases a@.len() - i,
    {
        if a[i] != b[i] {
            return false;
        }
        i = i + 1;
    }
    proof {
        assert(a@ =~= b@);
    }
    true
}

/// Index of the first occurrence of the three-byte pattern `b0 b1 b2`.
pub open spec fn spec_find3(s: Seq<u8>, b0: u8, b1: u8, b2: u8) -> Option<int>
    decreases s.len(),
{
    if s.len() < 3 {
        None
    } else if s[0] == b0 && s[1] == b1 && s[2] == b2 {
        Some(0)
    } else {
        match spec_find3(s.drop_first(), b0, b1, b2) {
            Some(i) => Some(i + 1),
            None => None,
        }
    }
}

pub proof fn lemma_spec_find3(s: Seq<u8>, b0: u8, b1: u8, b2: u8)
    ensures
        match spec_find3(s, b0, b1, b2) {
            Some(i) => 0 <= i && i + 2 < s.len() && s[i] == b0 && s[i + 1] == b1 && s[i + 2] == b2,
            None => true,
        },
    decreases s.len(),
{
    if s.len() >= 3 && !(s[0] == b0 && s[1] == b1 && s[2] == b2) {
        lemma_spec_find3(s.drop_first(), b0, b1, b2);
    }
}

pub fn find_triple(s: &[u8], b0: u8, b1: u8, b2: u8) -> (r: Option<usize>)
    ensures
        match r {
            Some(i) => spec_find3(s@, b0, b1, b2) == Some(i as int),
            None => spec_find3(s@, b0, b1, b2) is None,
        },
    decreases s@.len(),
{
    if s.len() < 3 {
        None
    } else if s[0] == b0 && s[1] == b1 && s[2] == b2 {
        Some(0)
    } else {
        let sub = vstd::slice::slice_subrange(s, 1, s.len());
        proof {
            assert(sub@ =~= s@.drop_first());
        }
        match find_triple(sub, b0, b1, b2) {
            Some(i) => {
                proof {
                    lemma_spec_find3(sub@, b0, b1, b2);
                }
                Some(i + 1)
            },
            None => None,
        }
    }
}

/// Splits `s` at every occurrence of the two-byte separator `b0 b1`.
pub open spec fn spec_split2(s: Seq<u8>, b0: u8, b1: u8) -> Seq<Seq<u8>>
    decreases s.len(),
    via spec_split2_decreases
{
    match spec_find2(s, b0, b1) {
        Some(i) => seq![s.subrange(0, i)] + spec_split2(
            s.subrange(i + 2, s.len() as int),
            b0,
            b1,
        ),
        None => seq![s],
    }
}

#[via_fn]
proof fn spec_split2_decreases(s: Seq<u8>, b0: u8, b1: u8) {
    lemma_spec_find2(s, b0, b1);
}

pub proof fn lemma_spec_split2_len(s: Seq<u8>, b0: u8, b1: u8)
    ensures
        spec_split2(s, b0, b1).len() >= 1,
    decreases s.len(),
{
    match spec_find2(s, b0, b1) {
        Some(i) => {
            lemma_spec_find2(s, b0, b1);
            lemma_spec_split2_len(s.subrange(i + 2, s.len() as int), b0, b1);
        },
        None => {},
    }
}

pub fn split_on_pair(s: &[u8], b0: u8, b1: u8) -> (r: Vec<Vec<u8>>)
    ensures
        r@.len() == spec_split2(s@, b0, b1).len(),
        forall|k: int| 0 <= k < r@.len() ==> r@[k]@ == #[trigger] spec_split2(s@, b0, b1)[k],
    decreases s@.len(),
{
    proof {
        lemma_spec_find2(s@, b0, b1);
    }
    match find_pair(s, b0, b1) {
        Some(i) => {
            let n = s.len();
            proof {
                assert(spec_find2(s@, b0, b1) == Some(i as int));
                assert(i + 1 < s@.len());
            }
            let head = vstd::slice::slice_to_vec(vstd::slice::slice_subrange(s, 0, i));
            let tail = vstd::slice::slice_subrange(s, i + 2, n);
            let rest = split_on_pair(tail, b0, b1);
            let mut out: Vec<Vec<u8>> = Vec::new();
            out.push(head);
            let mut j: usize = 0;
            while j < rest.len()
                invariant
                    0 <= j <= rest@.len(),
                    out@.len() == j + 1,
                    out@[0]@ == s@.subrange(0, i as int),
                    tail@ == s@.subrange(i as int + 2, s@.len() as int),
                    rest@.len() == spec_split2(tail@, b0, b1).len(),
                    forall|k: int|
                        0 <= k < rest@.len() ==> rest@[k]@ == #[trigger] spec_split2(
                            tail@,
                            b0,
                            b1,
                        )[k],
                    forall|k2: int| 0 <= k2 < j ==> out@[k2 + 1]@ == #[trigger] rest@[k2]@,
                decreases rest@.len() - j,
            {
                let piece = vstd::slice::slice_to_vec(rest[j].as_slice());
                out.push(piece);
                j = j + 1;
            }
            proof {
                let whole = spec_split2(s@, b0, b1);
                assert(whole == seq![s@.subrange(0, i as int)] + spec_split2(tail@, b0, b1));
                assert(whole[0] == s@.subrange(0, i as int));
                assert(forall|k: int|
                    1 <= k < whole.len() ==> #[trigger] whole[k] == spec_split2(tail@, b0, b1)[k
                        - 1]);
                assert forall|k: int| 0 <= k < out@.len() implies out@[k]@
                    == #[trigger] whole[k] by {
                    if k >= 1 {
                        assert(out@[k]@ == rest@[k - 1]@);
                    }
                }
            }
            out
        },
        None => {
            let only = vstd::slice::slice_to_vec(s);
            let mut out: Vec<Vec<u8>> = Vec::new();
            out.push(only);
            proof {
                assert(spec_split2(s@, b0, b1) == seq![s@]);
                assert(spec_split2(s@, b0, b1)[0] == s@);
            }
            out
        },
    }
}

/// The sub-sequence of non-empty pieces, in order.
pub open spec fn spec_nonempty(parts: Seq<Seq<u8>>) -> Seq<Seq<u8>>
    decreases parts.len(),
{
    if parts.len() == 0 {
        Seq::empty()
    } else if parts[0].len() > 0 {
        seq![parts[0]] + spec_nonempty(parts.drop_first())
    } else {
        spec_nonempty(parts.drop_first())
    }
}

pub proof fn lemma_nonempty_snoc(parts: Seq<Seq<u8>>, i: int)
    requires
        0 <= i < parts.len(),
    ensures
        spec_nonempty(parts.take(i + 1)) == spec_nonempty(parts.take(i)) + (if parts[i].len() > 0 {
            seq![parts[i]]
        } else {
            Seq::<Seq<u8>>::empty()
        }),
    decreases i,
{
    let a = parts.take(i + 1);
    let b = parts.take(i);
    if i == 0 {
        assert(a =~= seq![parts[0]]);
        assert(b =~= Seq::<Seq<u8>>::empty());
        assert(a.drop_first() =~= Seq::<Seq<u8>>::empty());
        if parts[0].len() > 0 {
            assert(spec_nonempty(a) =~= spec_nonempty(b) + seq![parts[0]]);
        } else {
            assert(spec_nonempty(a) =~= spec_nonempty(b));
        }
    } else {
        lemma_nonempty_snoc(parts.drop_first(), i - 1);
        assert(a.drop_first() =~= parts.drop_first().take(i));
        assert(b.drop_first() =~= parts.drop_first().take(i - 1));
        assert(a[0] == parts[0]);
        assert(b[0] == parts[0]);
        assert(parts.drop_first()[i - 1] == parts[i]);
        if parts[0].len() > 0 {
            assert(spec_nonempty(a) =~= spec_nonempty(b) + (if parts[i].len() > 0 {
                seq![parts[i]]
            } else {
                Seq::<Seq<u8>>::empty()
            }));
        } else {
            assert(spec_nonempty(a) =~= spec_nonempty(b) + (if parts[i].len() > 0 {
                seq![parts[i]]
            } else {
                Seq::<Seq<u8>>::empty()
            }));
        }
    }
}

/// Keeps the non-empty pieces of a split, in order.
pub fn nonempty_pieces(parts: &Vec<Vec<u8>>) -> (r: Vec<Vec<u8>>)
    ensures
        r@.len() == spec_nonempty(parts@.map_values(|p: Vec<u8>| p@)).len(),
        forall|k: int|
            0 <= k < r@.len() ==> #[trigger] r@[k]@ == spec_nonempty(
                parts@.map_values(|p: Vec<u8>| p@),
            )[k],
{
    let ghost sv = parts@.map_values(|p: Vec<u8>| p@);
    let mut out: Vec<Vec<u8>> = Vec::new();
    let mut i: usize = 0;
    proof {
        assert(sv.take(0) =~= Seq::<Seq<u8>>::empty());
    }
    while i < parts.len()
        invariant
            0 <= i <= parts@.len(),
            sv == parts@.map_values(|p: Vec<u8>| p@),
            sv.len() == parts@.len(),
            out@.len() == spec_nonempty(sv.take(i as int)).len(),
            forall|k: int|
                0 <= k < out@.len() ==> out@[k]@ == #[trigger] spec_nonempty(
                    sv.take(i as int),
                )[k],
        decreases parts@.len() - i,
    {
        proof {
            lemma_nonempty_snoc(sv, i as int);
        }
        if parts[i].len() > 0 {
            out.push(clone_bytes(parts[i].as_slice()));
        }
        i = i + 1;
    }
    proof {
        assert(sv.take(sv.len() as int) =~= sv);
    }
    out
}

/// Lowercase hex digit for a value below 16.
pub open spec fn hex_digit(n: int) -> u8 {
    if n < 10 {
        (0x30 + n) as u8
    } else {
        (0x57 + n) as u8
    }
}

/// Lowercase hex encoding, two digits per byte.
pub open spec fn spec_hex(s: Seq<u8>) -> Seq<u8>
    decreases s.len(),
{
    if s.len() == 0 {
        Seq::empty()
    } else {
        seq![hex_digit(s[0] as int / 16), hex_digit(s[0] as int % 16)] + spec_hex(s.drop_first())
    }
}

proof fn lemma_hex_snoc(s: Seq<u8>, i: int)
    requires
        0 <= i < s.len(),
    ensures
        spec_hex(s.take(i + 1)) == spec_hex(s.take(i)) + seq![
            hex_digit(s[i] as int / 16),
            hex_digit(s[i] as int % 16),
        ],
    decreases i,
{
    let a = s.take(i + 1);
    let b = s.take(i);
    if i == 0 {
        assert(a =~= seq![s[0]]);
        assert(b =~= Seq::<u8>::empty());
        assert(a.drop_first() =~= Seq::<u8>::empty());
        assert(spec_hex(a) =~= spec_hex(b) + seq![hex_digit(s[0] as int / 16), hex_digit(s[0] as int % 16)]);
    } else {
        lemma_hex_snoc(s.drop_first(), i - 1);
        assert(a.drop_first() =~= s.drop_first().take(i));
        assert(b.drop_first() =~= s.drop_first().take(i - 1));
        assert(a[0] == s[0]);
        assert(b[0] == s[0]);
        assert(s.drop_first()[i - 1] == s[i]);
        assert(spec_hex(a) =~= spec_hex(b) + seq![hex_digit(s[i] as int / 16), hex_digit(s[i] as int % 16)]);
    }
}

pub fn hex_lower(s: &[u8]) -> (r: Vec<u8>)
    ensures
        r@ == spec_hex(s@),
        r@.len() == 2 * s@.len(),
{
    let mut out: Vec<u8> = Vec::new();
    let mut i: usize = 0;
    proof {
        assert(s@.take(0) =~= Seq::<u8>::empty());
    }
    while i < s.len()
        invariant
            0 <= i <= s@.len(),
            out@ == spec_hex(s@.take(i as int)),
            out@.len() == 2 * i,
        decreases s@.len() - i,
    {
        let b = s[i];
        let hi = b / 16;
        let lo = b % 16;
        let hd: u8 = if hi < 10 {
            0x30 + hi
        } else {
            0x57 + hi
        };
        let ld: u8 = if lo < 10 {
            0x30 + lo
        } else {
            0x57 + lo
        };
        out.push(hd);
        out.push(ld);
        proof {
            lemma_hex_snoc(s@, i as int);
            assert(out@ =~= spec_hex(s@.take(i as int)) + seq![
                hex_digit(s@[i as int] as int / 16),
                hex_digit(s@[i as int] as int % 16),
            ]);
        }
        i = i + 1;
    }
    proof {
        assert(s@.take(s@.len() as int) =~= s@);
    }
    out
}

/// Lowercases ASCII letters, leaving everything else alone; used for
/// case-insensitive hex comparison.
pub open spec fn spec_ascii_lower(s: Seq<u8>) -> Seq<u8> {
    s.map(|i: int, b: u8| if 0x41 <= b <= 0x5a { (b + 0x20) as u8 } else { b })
}

pub fn ascii_lower(s: &[u8]) -> (r: Vec<u8>)
    ensures
        r@ == spec_ascii_lower(s@),
{
    let mut out: Vec<u8> = Vec::new();
    let mut i: usize = 0;
    while i < s.len()
        invariant
            0 <= i <= s@.len(),
            out@ == spec_ascii_lower(s@.subrange(0, i as int)),
        decreases s@.len() - i,
    {
        let b = s[i];
        if 0x41 <= b && b <= 0x5a {
            out.push(b + 0x20);
        } else {
            out.push(b);
        }
        proof {
            assert(out@ =~= spec_ascii_lower(s@.subrange(0, i as int + 1)));
        }
        i = i + 1;
    }
    proof {
        assert(s@.subrange(0, s@.len() as int) =~= s@);
    }
    out
}

} // verus!
