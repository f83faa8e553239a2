//! Naming of candidate files of the development filesystem backend.
//!
//! A candidate file is `candidate-`, twenty decimal digits and `.bin`. The
//! numbers are local physical bookkeeping only: they are never logical
//! identities and never take part in merge order.
use vstd::prelude::*;
use vstd::string::StringSliceAdditionalSpecFns;

verus! {

#[verifier::external_type_specification]
#[verifier::external_body]
pub struct ExIoError(std::io::Error);

/// Errors of the development filesystem backend.
#[derive(Debug)]
pub enum FsStorageError {
    Io(std::io::Error),
    InvalidRootManifest,
    CandidateIdExhausted,
}

/// `candidate-`
pub open spec fn candidate_prefix() -> Seq<u8> {
    seq![0x63u8, 0x61u8, 0x6eu8, 0x64u8, 0x69u8, 0x64u8, 0x61u8, 0x74u8, 0x65u8, 0x2du8]
}

/// `.bin`
pub open spec fn candidate_suffix() -> Seq<u8> {
    seq![0x2eu8, 0x62u8, 0x69u8, 0x6eu8]
}

/// Digits of a candidate number.
pub const CANDIDATE_DIGITS: usize = 20;

pub open spec fn is_ascii_digit(b: u8) -> bool {
    0x30 <= b <= 0x39
}

/// The name of a candidate file: the prefix, twenty digits, the suffix.
pub open spec fn valid_name_bytes(b: Seq<u8>) -> bool {
    &&& b.len() == 34
    &&& b.subrange(0, 10) == candidate_prefix()
    &&& b.subrange(30, 34) == candidate_suffix()
    &&& forall|i: int| 10 <= i < 30 ==> is_ascii_digit(#[trigger] b[i])
}

/// The value of decimal digits.
pub open spec fn decimal_value(s: Seq<u8>) -> nat
    decreases s.len(),
{
    if s.len() == 0 {
        0
    } else {
        decimal_value(s.drop_last()) * 10 + (s.last() - 0x30) as nat
    }
}

/// `v` in `n` decimal digits, zero-padded.
pub open spec fn decimal_digits(v: nat, n: nat) -> Seq<u8>
    decreases n,
{
    if n == 0 {
        Seq::empty()
    } else {
        decimal_digits(v / 10, (n - 1) as nat).push((0x30 + v % 10) as u8)
    }
}

/// The file name of candidate `id`.
pub open spec fn candidate_name(id: nat) -> Seq<u8> {
    candidate_prefix() + decimal_digits(id, 20) + candidate_suffix()
}

/// The number a file name stands for, when it is a candidate name.
pub open spec fn candidate_number(b: Seq<u8>) -> Option<nat> {
    if valid_name_bytes(b) {
        Some(decimal_value(b.subrange(10, 30)))
    } else {
        None
    }
}

/// Whether a file name is a candidate name.
pub fn valid_candidate_name(file_name: &str) -> (r: bool)
    ensures
        r == valid_name_bytes(file_name.spec_bytes()),
{
    valid_name(file_name.as_bytes())
}

fn valid_name(b: &[u8]) -> (r: bool)
    ensures
        r == valid_name_bytes(b@),
{
    if b.len() != 34 {
        return false;
    }
    let prefix = vec![0x63, 0x61, 0x6e, 0x64, 0x69, 0x64, 0x61, 0x74, 0x65, 0x2d];
    let suffix = vec![0x2e, 0x62, 0x69, 0x6e];
    assert(prefix@ =~= candidate_prefix());
    assert(suffix@ =~= candidate_suffix());
    if crate::order::compare_bytes(&b[0..10], prefix.as_slice()) != 0 {
        return false;
    }
    if crate::order::compare_bytes(&b[30..34], suffix.as_slice()) != 0 {
        return false;
    }
    let mut i: usize = 10;
    while i < 30
        invariant
            10 <= i <= 30,
            b@.len() == 34,
            forall|j: int| 10 <= j < i ==> is_ascii_digit(#[trigger] b@[j]),
        decreases 30 - i,
    {
        if b[i] < 0x30 || b[i] > 0x39 {
            return false;
        }
        i = i + 1;
    }
    true
}

pub proof fn lemma_decimal_round_trip(v: nat, n: nat)
    requires
        n <= 20,
    ensures
        decimal_digits(v, n).len() == n,
        forall|i: int| 0 <= i < n ==> is_ascii_digit(#[trigger] decimal_digits(v, n)[i]),
        decimal_value(decimal_digits(v, n)) == v % pow10(n),
    decreases n,
{
    if n > 0 {
        lemma_decimal_round_trip(v / 10, (n - 1) as nat);
        let s = decimal_digits(v, n);
        assert(s.drop_last() =~= decimal_digits(v / 10, (n - 1) as nat));
        lemma_pow10_positive((n - 1) as nat);
        lemma_mod_split(v, pow10((n - 1) as nat));
    }
}

/// `10` to the power `n`.
pub open spec fn pow10(n: nat) -> nat
    decreases n,
{
    if n == 0 {
        1
    } else {
        10 * pow10((n - 1) as nat)
    }
}

proof fn lemma_pow10_positive(n: nat)
    ensures
        pow10(n) >= 1,
    decreases n,
{
    if n > 0 {
        lemma_pow10_positive((n - 1) as nat);
    }
}

/// `(v / 10) % p * 10 + v % 10 == v % (10 * p)`.
proof fn lemma_mod_split(v: nat, p: nat)
    requires
        p >= 1,
    ensures
        ((v / 10) % p) * 10 + v % 10 == v % (10 * p),
{
    let q = v / 10;
    let r = v % 10;
    assert(v == q * 10 + r);
    let a = q / p;
    let b = q % p;
    assert(q == a * p + b) by (nonlinear_arith)
        requires
            p >= 1,
            a == q / p,
            b == q % p,
    ;
    assert(v == a * (10 * p) + (b * 10 + r)) by (nonlinear_arith)
        requires
            v == q * 10 + r,
            q == a * p + b,
    ;
    assert(0 <= b * 10 + r < 10 * p) by (nonlinear_arith)
        requires
            0 <= b < p,
            0 <= r < 10,
    ;
    vstd::arithmetic::div_mod::lemma_fundamental_div_mod_converse(v as int, (10 * p) as int, a as int, (b * 10 + r) as int);
}

proof fn lemma_pow10_20()
    ensures
        pow10(20) == 100_000_000_000_000_000_000nat,
{
    reveal_with_fuel(pow10, 21);
}

/// Appends `v` in `n` decimal digits.
fn push_decimal(out: &mut Vec<u8>, v: u64, n: usize)
    requires
        n <= 20,
    ensures
        final(out)@ == old(out)@ + decimal_digits(v as nat, n as nat),
    decreases n,
{
    if n == 0 {
        assert(old(out)@ + Seq::<u8>::empty() =~= old(out)@);
        return;
    }
    push_decimal(out, v / 10, n - 1);
    out.push((0x30 + v % 10) as u8);
    assert(final(out)@ =~= old(out)@ + decimal_digits(v as nat, n as nat));
}

/// The file name of candidate `id`, as bytes; it is a candidate name and
/// stands for `id`.
pub fn candidate_file_name(id: u64) -> (name: Vec<u8>)
    ensures
        name@ == candidate_name(id as nat),
        candidate_number(name@) == Some(id as nat),
{
    let mut name = vec![0x63, 0x61, 0x6e, 0x64, 0x69, 0x64, 0x61, 0x74, 0x65, 0x2d];
    assert(name@ =~= candidate_prefix());
    push_decimal(&mut name, id, 20);
    let mut i: usize = 0;
    let suffix = vec![0x2e, 0x62, 0x69, 0x6e];
    assert(suffix@ =~= candidate_suffix());
    while i < 4
        invariant
            i <= 4,
            suffix@ == candidate_suffix(),
            name@ == candidate_prefix() + decimal_digits(id as nat, 20) + suffix@.take(i as int),
        decreases 4 - i,
    {
        name.push(suffix[i]);
        assert(suffix@.take(i as int + 1) =~= suffix@.take(i as int).push(suffix@[i as int]));
        i = i + 1;
    }
    proof {
        assert(suffix@.take(4) =~= suffix@);
        lemma_decimal_round_trip(id as nat, 20);
        lemma_pow10_20();
        let n = name@;
        assert(n.subrange(0, 10) =~= candidate_prefix());
        assert(n.subrange(30, 34) =~= candidate_suffix());
        assert(n.subrange(10, 30) =~= decimal_digits(id as nat, 20));
        assert forall|i: int| 10 <= i < 30 implies is_ascii_digit(#[trigger] n[i]) by {
            assert(n[i] == decimal_digits(id as nat, 20)[i - 10]);
        }
    }
    name
}

/// The largest candidate number among `names`, none when no name is a
/// candidate name standing for a 64-bit number.
pub open spec fn max_candidate(names: Seq<Seq<u8>>) -> Option<nat>
    decreases names.len(),
{
    if names.len() == 0 {
        None
    } else {
        let rest = max_candidate(names.drop_last());
        match candidate_number(names.last()) {
            Some(v) => if v > u64::MAX {
                rest
            } else {
                match rest {
                    Some(m) => Some(if v > m { v } else { m }),
                    None => Some(v),
                }
            },
            None => rest,
        }
    }
}

/// The largest candidate number is the largest number, up to the 64-bit
/// limit, that some name stands for: every such number is at most it, and
/// some name stands for it; there is none exactly when no name stands for
/// such a number.
pub proof fn lemma_max_candidate(names: Seq<Seq<u8>>)
    ensures
        forall|i: int|
            0 <= i < names.len() && #[trigger] candidate_number(names[i]) is Some && candidate_number(names[i])->Some_0
                <= u64::MAX ==> max_candidate(names) is Some && candidate_number(names[i])->Some_0 <= max_candidate(
                names,
            )->Some_0,
        max_candidate(names) matches Some(m) ==> m <= u64::MAX && exists|i: int|
            0 <= i < names.len() && #[trigger] candidate_number(names[i]) == Some(m),
    decreases names.len(),
{
    if names.len() > 0 {
        let t = names.drop_last();
        lemma_max_candidate(t);
        assert forall|i: int|
            0 <= i < names.len() && #[trigger] candidate_number(names[i]) is Some && candidate_number(names[i])->Some_0
                <= u64::MAX implies max_candidate(names) is Some && candidate_number(names[i])->Some_0 <= max_candidate(
                names,
            )->Some_0 by {
            if i < names.len() - 1 {
                assert(t[i] == names[i]);
                assert(candidate_number(t[i]) == candidate_number(names[i]));
            }
        }
        if max_candidate(names) is Some {
            let m = max_candidate(names)->Some_0;
            if candidate_number(names.last()) == Some(m) {
                assert(candidate_number(names[names.len() - 1]) == Some(m));
            } else {
                let i = choose|i: int| 0 <= i < t.len() && #[trigger] candidate_number(t[i]) == Some(m);
                assert(t[i] == names[i]);
                assert(candidate_number(names[i]) == Some(m));
            }
        }
    }
}

/// Reads the number a candidate name stands for, if it fits 64 bits.
fn candidate_value(b: &[u8]) -> (r: Option<u64>)
    requires
        valid_name_bytes(b@),
    ensures
        match r {
            Some(v) => v == decimal_value(b@.subrange(10, 30)),
            None => decimal_value(b@.subrange(10, 30)) > u64::MAX,
        },
{
    let mut v: u64 = 0;
    let mut i: usize = 10;
    let mut overflow = false;
    proof {
        assert(b@.subrange(10, 10) =~= Seq::<u8>::empty());
    }
    while i < 30
        invariant
            10 <= i <= 30,
            b@.len() == 34,
            valid_name_bytes(b@),
            !overflow ==> v == decimal_value(b@.subrange(10, i as int)),
            overflow ==> decimal_value(b@.subrange(10, i as int)) > u64::MAX,
        decreases 30 - i,
    {
        let d = (b[i] - 0x30) as u64;
        proof {
            assert(b@.subrange(10, i as int + 1).drop_last() =~= b@.subrange(10, i as int));
            assert(is_ascii_digit(b@[i as int]));
        }
        if !overflow {
            if v > 1_844_674_407_370_955_161 || (v == 1_844_674_407_370_955_161 && d > 5) {
                overflow = true;
            } else {
                v = v * 10 + d;
            }
        }
        i = i + 1;
    }
    if overflow {
        None
    } else {
        Some(v)
    }
}

/// The number for the next candidate after those already named: one past the
/// largest, zero when there is none; refused when the number space is spent.
pub fn next_candidate_id(file_names: &Vec<String>) -> (r: Result<u64, FsStorageError>)
    ensures
        match max_candidate(file_names@.map_values(|s: String| vstd::utf8::encode_utf8(s@))) {
            None => r matches Ok(v) && v == 0,
            Some(m) => if m == u64::MAX {
                r matches Err(FsStorageError::CandidateIdExhausted)
            } else {
                r matches Ok(v) && v == m + 1
            },
        },
        r matches Ok(n) ==> forall|i: int|
            0 <= i < file_names@.len() && #[trigger] candidate_number(vstd::utf8::encode_utf8(file_names@[i]@)) is Some
                && candidate_number(vstd::utf8::encode_utf8(file_names@[i]@))->Some_0 <= u64::MAX ==> candidate_number(
                vstd::utf8::encode_utf8(file_names@[i]@),
            )->Some_0 < n,
        r matches Ok(n) ==> (n == 0 || exists|i: int| 0 <= i < file_names@.len() && #[trigger] candidate_number(
            vstd::utf8::encode_utf8(file_names@[i]@),
        ) == Some((n - 1) as nat)),
        r is Err <==> exists|i: int| 0 <= i < file_names@.len() && #[trigger] candidate_number(
            vstd::utf8::encode_utf8(file_names@[i]@),
        ) == Some(u64::MAX as nat),
{
    let ghost names = file_names@.map_values(|s: String| vstd::utf8::encode_utf8(s@));
    let mut maximum: Option<u64> = None;
    let mut i: usize = 0;
    proof {
        assert(names.take(0) =~= Seq::<Seq<u8>>::empty());
    }
    while i < file_names.len()
        invariant
            i <= file_names@.len(),
            names == file_names@.map_values(|s: String| vstd::utf8::encode_utf8(s@)),
            match maximum {
                Some(m) => max_candidate(names.take(i as int)) == Some(m as nat),
                None => max_candidate(names.take(i as int)) is None,
            },
        decreases file_names@.len() - i,
    {
        let name = file_names[i].as_str();
        let bytes = name.as_bytes();
        proof {
            assert(names.take(i as int + 1).drop_last() =~= names.take(i as int));
            assert(names[i as int] == bytes@);
        }
        if valid_name(bytes) {
            match candidate_value(bytes) {
                Some(v) => {
                    maximum = match maximum {
                        Some(m) => Some(if v > m { v } else { m }),
                        None => Some(v),
                    };
                },
                None => {},
            }
        }
        i = i + 1;
    }
    proof {
        assert(names.take(names.len() as int) =~= names);
        lemma_max_candidate(names);
        assert forall|i: int| 0 <= i < file_names@.len() implies #[trigger] names[i] == vstd::utf8::encode_utf8(
            file_names@[i]@,
        ) by {}
        assert forall|i: int| 0 <= i < file_names@.len() implies #[trigger] candidate_number(
            vstd::utf8::encode_utf8(file_names@[i]@),
        ) == candidate_number(names[i]) by {}
        if exists|i: int| 0 <= i < file_names@.len() && #[trigger] candidate_number(
            vstd::utf8::encode_utf8(file_names@[i]@),
        ) == Some(u64::MAX as nat) {
            let i = choose|i: int| 0 <= i < file_names@.len() && #[trigger] candidate_number(
                vstd::utf8::encode_utf8(file_names@[i]@),
            ) == Some(u64::MAX as nat);
            assert(candidate_number(names[i]) == Some(u64::MAX as nat));
        }
    }
    match maximum {
        None => Ok(0),
        Some(m) => {
            if m == u64::MAX {
                Err(FsStorageError::CandidateIdExhausted)
            } else {
                Ok(m + 1)
            }
        },
    }
}

/// A text without its trailing line feeds.
pub open spec fn trim_line_feeds(s: Seq<u8>) -> Seq<u8>
    decreases s.len(),
{
    if s.len() > 0 && s.last() == 0x0a {
        trim_line_feeds(s.drop_last())
    } else {
        s
    }
}

/// The candidate named by a committed-root manifest: its text without
/// trailing line feeds, refused unless it is a candidate name.
pub fn root_manifest_candidate(manifest: &str) -> (r: Result<Vec<u8>, FsStorageError>)
    ensures
        r is Ok <==> valid_name_bytes(trim_line_feeds(manifest.spec_bytes())),
        match r {
            Ok(name) => name@ == trim_line_feeds(manifest.spec_bytes()),
            Err(e) => e is InvalidRootManifest,
        },
{
    let b = manifest.as_bytes();
    let mut k: usize = b.len();
    assert(b@.subrange(0, k as int) =~= b@);
    while k > 0 && b[k - 1] == 0x0a
        invariant
            k <= b@.len(),
            trim_line_feeds(b@.subrange(0, k as int)) == trim_line_feeds(b@),
        decreases k,
    {
        assert(b@.subrange(0, k as int).drop_last() =~= b@.subrange(0, k - 1));
        k = k - 1;
    }
    assert(trim_line_feeds(b@.subrange(0, k as int)) == b@.subrange(0, k as int));
    let name_slice = &b[0..k];
    if !valid_name(name_slice) {
        return Err(FsStorageError::InvalidRootManifest);
    }
    let mut name: Vec<u8> = Vec::new();
    let mut i: usize = 0;
    while i < k
        invariant
            i <= k <= b@.len(),
            name_slice@ == b@.subrange(0, k as int),
            name@ == name_slice@.take(i as int),
        decreases k - i,
    {
        name.push(name_slice[i]);
        assert(name_slice@.take(i as int + 1) =~= name_slice@.take(i as int).push(name_slice@[i as int]));
        i = i + 1;
    }
    assert(name_slice@.take(k as int) =~= name_slice@);
    Ok(name)
}

/// A candidate file of the filesystem backend.
#[derive(Clone, Debug, PartialEq, Eq)]
pub struct FsCandidate {
    file_name: String,
}

impl View for FsCandidate {
    type V = Seq<char>;

    closed spec fn view(&self) -> Seq<char> {
        self.file_name@
    }
}

impl FsCandidate {
    /// The candidate with the given file name.
    pub fn from_file_name(file_name: String) -> (c: Self)
        ensures
            c@ == file_name@,
    {
        FsCandidate { file_name }
    }

    pub fn file_name(&self) -> (r: &str)
        ensures
            r@ == self@,
    {
        self.file_name.as_str()
    }
}

} // verus!
