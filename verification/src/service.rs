//! What a service is called and what it declares about other services.

use vstd::prelude::*;
use vstd::utf8::encode_utf8;

verus! {

/// The longest a service name may be, in bytes.
///
/// Long enough for real-world names such as `systemd-resolved`, short enough to keep
/// runtime paths like `/run/rrc/<name>` manageable.
pub const MAX_SERVICE_NAME_LEN: usize = 64;

/// A byte that may appear in a service name: an ASCII letter or digit, `-` or `_`.
pub open spec fn name_byte_ok(b: u8) -> bool {
    (0x30 <= b <= 0x39) || (0x41 <= b <= 0x5a) || (0x61 <= b <= 0x7a) || b == 0x2d || b == 0x5f
}

/// A valid service name, as UTF-8 bytes: not empty, at most
/// [`MAX_SERVICE_NAME_LEN`] bytes, and made of allowed bytes only.
pub open spec fn is_valid_name(bytes: Seq<u8>) -> bool {
    &&& 0 < bytes.len() <= MAX_SERVICE_NAME_LEN
    &&& forall|i: int| 0 <= i < bytes.len() ==> name_byte_ok(#[trigger] bytes[i])
}


/// Lexicographic order on byte strings: the order of `String`s, which compare
/// their UTF-8 bytes.
pub open spec fn bytes_le(a: Seq<u8>, b: Seq<u8>) -> bool
    decreases a.len(),
{
    if a.len() == 0 {
        true
    } else if b.len() == 0 {
        false
    } else if a[0] != b[0] {
        a[0] < b[0]
    } else {
        bytes_le(a.drop_first(), b.drop_first())
    }
}

/// Any two byte strings are ordered one way or the other.
pub proof fn lemma_bytes_le_total(a: Seq<u8>, b: Seq<u8>)
    ensures
        bytes_le(a, b) || bytes_le(b, a),
    decreases a.len(),
{
    if a.len() > 0 && b.len() > 0 && a[0] == b[0] {
        lemma_bytes_le_total(a.drop_first(), b.drop_first());
    }
}

/// The order is transitive.
pub proof fn lemma_bytes_le_transitive(a: Seq<u8>, b: Seq<u8>, c: Seq<u8>)
    requires
        bytes_le(a, b),
        bytes_le(b, c),
    ensures
        bytes_le(a, c),
    decreases a.len(),
{
    if a.len() > 0 && b.len() > 0 && c.len() > 0 && a[0] == b[0] && b[0] == c[0] {
        lemma_bytes_le_transitive(a.drop_first(), b.drop_first(), c.drop_first());
    }
}

/// The naming rule, spelled out: a byte string is a valid service name exactly
/// when it has 1 to 64 bytes and each is an ASCII lower-case letter `a`..=`z`,
/// an upper-case letter `A`..=`Z`, a digit `0`..=`9`, `-` or `_`.
pub proof fn lemma_naming_rule(bytes: Seq<u8>)
    ensures
        is_valid_name(bytes) <==> {
            &&& 1 <= bytes.len() <= 64
            &&& forall|i: int|
                0 <= i < bytes.len() ==> {
                    let b = #[trigger] bytes[i];
                    ||| 97 <= b <= 122
                    ||| 65 <= b <= 90
                    ||| 48 <= b <= 57
                    ||| b == 45
                    ||| b == 95
                }
        },
{
}

/// Every letter, digit, `-` and `_` may appear in a name, and nothing else may.
pub proof fn lemma_name_bytes(b: u8)
    ensures
        97 <= b <= 122 ==> name_byte_ok(b),
        65 <= b <= 90 ==> name_byte_ok(b),
        48 <= b <= 57 ==> name_byte_ok(b),
        name_byte_ok(45u8),
        name_byte_ok(95u8),
        name_byte_ok(b) ==> (97 <= b <= 122 || 65 <= b <= 90 || 48 <= b <= 57 || b == 45 || b == 95),
{
}

/// The order of names is lexicographic on their bytes: `a` sorts before or with
/// `b` exactly when `a` is a prefix of `b`, or the first byte where they differ
/// is smaller in `a`.
pub proof fn lemma_bytes_le_lexicographic(a: Seq<u8>, b: Seq<u8>)
    ensures
        bytes_le(a, b) <==> {
            ||| (a.len() <= b.len() && a == b.subrange(0, a.len() as int))
            ||| exists|k: int|
                0 <= k < a.len() && k < b.len() && a.subrange(0, k) == b.subrange(0, k) && a[k]
                    < b[k]
        },
    decreases a.len(),
{
    let prefix = a.len() <= b.len() && a == b.subrange(0, a.len() as int);
    let differs = exists|k: int|
        0 <= k < a.len() && k < b.len() && a.subrange(0, k) == b.subrange(0, k) && a[k] < b[k];
    if a.len() == 0 {
        assert(a =~= b.subrange(0, 0));
    } else if b.len() == 0 {
        assert(!prefix);
    } else if a[0] != b[0] {
        if a[0] < b[0] {
            assert(a.subrange(0, 0) =~= b.subrange(0, 0));
        } else {
            assert(!prefix) by {
                if prefix {
                    assert(a[0] == b.subrange(0, a.len() as int)[0]);
                }
            }
            assert(!differs) by {
                if differs {
                    let k = choose|k: int|
                        0 <= k < a.len() && k < b.len() && a.subrange(0, k) == b.subrange(0, k)
                            && a[k] < b[k];
                    if k > 0 {
                        assert(a.subrange(0, k)[0] == b.subrange(0, k)[0]);
                    }
                }
            }
        }
    } else {
        let a1 = a.drop_first();
        let b1 = b.drop_first();
        lemma_bytes_le_lexicographic(a1, b1);
        let prefix1 = a1.len() <= b1.len() && a1 == b1.subrange(0, a1.len() as int);
        let differs1 = exists|k: int|
            0 <= k < a1.len() && k < b1.len() && a1.subrange(0, k) == b1.subrange(0, k) && a1[k]
                < b1[k];
        if prefix1 {
            assert forall|j: int| 0 <= j < a.len() implies #[trigger] a[j] == b.subrange(
                0,
                a.len() as int,
            )[j] by {
                if j > 0 {
                    assert(a1[j - 1] == b1.subrange(0, a1.len() as int)[j - 1]);
                }
            }
            assert(a =~= b.subrange(0, a.len() as int));
        }
        if prefix {
            assert(a1 =~= b1.subrange(0, a1.len() as int));
        }
        if differs1 {
            let k = choose|k: int|
                0 <= k < a1.len() && k < b1.len() && a1.subrange(0, k) == b1.subrange(0, k)
                    && a1[k] < b1[k];
            assert forall|j: int| 0 <= j < k + 1 implies #[trigger] a[j] == b[j] by {
                if j > 0 {
                    assert(a1.subrange(0, k)[j - 1] == b1.subrange(0, k)[j - 1]);
                }
            }
            assert(a.subrange(0, k + 1) =~= b.subrange(0, k + 1));
            assert(a[k + 1] < b[k + 1]);
        }
        if differs {
            let k = choose|k: int|
                0 <= k < a.len() && k < b.len() && a.subrange(0, k) == b.subrange(0, k) && a[k]
                    < b[k];
            assert(k > 0);
            assert forall|j: int| 0 <= j < k - 1 implies #[trigger] a1[j] == b1[j] by {
                assert(a.subrange(0, k)[j + 1] == b.subrange(0, k)[j + 1]);
            }
            assert(a1.subrange(0, k - 1) =~= b1.subrange(0, k - 1));
            assert(a1[k - 1] < b1[k - 1]);
        }
    }
}

/// A name whose first byte is smaller sorts strictly before the other, and
/// names that share a first byte are ordered by the rest.
pub proof fn lemma_bytes_le_first_byte(a: Seq<u8>, b: Seq<u8>)
    requires
        a.len() > 0,
        b.len() > 0,
    ensures
        a[0] < b[0] ==> bytes_le(a, b) && !bytes_le(b, a),
        a[0] == b[0] ==> bytes_le(a, b) == bytes_le(a.drop_first(), b.drop_first()),
{
    lemma_bytes_le_lexicographic(a, b);
    lemma_bytes_le_lexicographic(b, a);
    lemma_bytes_le_lexicographic(a.drop_first(), b.drop_first());
    if a[0] < b[0] {
        assert(a.subrange(0, 0) =~= b.subrange(0, 0));
        assert(!(a.len() <= b.len() && a == b.subrange(0, a.len() as int))) by {
            if a.len() <= b.len() && a == b.subrange(0, a.len() as int) {
                assert(a[0] == b.subrange(0, a.len() as int)[0]);
            }
        }
    }
}

/// Compares two byte strings in lexicographic order.
fn slice_le(a: &[u8], b: &[u8]) -> (r: bool)
    ensures
        r == bytes_le(a@, b@),
{
    let mut i: usize = 0;
    assert(a@.subrange(0, a@.len() as int) =~= a@);
    assert(b@.subrange(0, b@.len() as int) =~= b@);
    while i < a.len() && i < b.len()
        invariant
            i <= a@.len(),
            i <= b@.len(),
            bytes_le(a@, b@) == bytes_le(
                a@.subrange(i as int, a@.len() as int),
                b@.subrange(i as int, b@.len() as int),
            ),
        decreases a@.len() - i,
    {
        let ghost sa = a@.subrange(i as int, a@.len() as int);
        let ghost sb = b@.subrange(i as int, b@.len() as int);
        if a[i] != b[i] {
            return a[i] < b[i];
        }
        assert(sa.drop_first() =~= a@.subrange(i + 1, a@.len() as int));
        assert(sb.drop_first() =~= b@.subrange(i + 1, b@.len() as int));
        i = i + 1;
    }
    i == a.len()
}

/// The name of a service. Always valid: see [`is_valid_name`].
#[derive(Debug)]
pub struct ServiceName(String);

/// A string that was refused as a service name.
#[derive(Debug)]
pub struct ServiceNameError(String);

impl View for ServiceName {
    type V = Seq<char>;

    closed spec fn view(&self) -> Seq<char> {
        self.0@
    }
}

impl View for ServiceNameError {
    type V = Seq<char>;

    closed spec fn view(&self) -> Seq<char> {
        self.0@
    }
}

/// Whether a byte may appear in a service name.
fn byte_ok(b: u8) -> (r: bool)
    ensures
        r == name_byte_ok(b),
{
    // digits, upper-case letters, lower-case letters, '-' and '_'
    (0x30 <= b && b <= 0x39) || (0x41 <= b && b <= 0x5a) || (0x61 <= b && b <= 0x7a) || b == 0x2d
        || b == 0x5f
}

/// Checks every byte of a candidate name, and its length.
fn bytes_form_valid_name(bytes: &[u8]) -> (r: bool)
    ensures
        r == is_valid_name(bytes@),
{
    let n = bytes.len();
    if n == 0 || n > MAX_SERVICE_NAME_LEN {
        return false;
    }
    let mut i: usize = 0;
    while i < n
        invariant
            n == bytes@.len(),
            0 < n <= MAX_SERVICE_NAME_LEN,
            i <= n,
            forall|j: int| 0 <= j < i ==> name_byte_ok(#[trigger] bytes@[j]),
        decreases n - i,
    {
        if !byte_ok(bytes[i]) {
            assert(!name_byte_ok(bytes@[i as int]));
            return false;
        }
        i = i + 1;
    }
    true
}

impl ServiceName {
    #[verifier::type_invariant]
    spec fn valid(self) -> bool {
        is_valid_name(encode_utf8(self.0@))
    }

    /// The bytes of this name, as a valid name is checked against and as names
    /// are ordered.
    pub open spec fn bytes(self) -> Seq<u8> {
        encode_utf8(self@)
    }

    /// Whether this name sorts before `other`, or equals it.
    pub fn le(&self, other: &ServiceName) -> (r: bool)
        ensures
            r == bytes_le(self.bytes(), other.bytes()),
    {
        slice_le(self.0.as_str().as_bytes(), other.0.as_str().as_bytes())
    }

    /// Accepts `s` exactly when it is a valid name; the error keeps the refused text.
    pub fn new(s: &str) -> (r: Result<ServiceName, ServiceNameError>)
        ensures
            r is Ok <==> is_valid_name(encode_utf8(s@)),
            r matches Ok(n) ==> n@ == s@,
            r matches Err(e) ==> e@ == s@,
    {
        let ok = bytes_form_valid_name(s.as_bytes());
        let owned = String::from_str(s);
        if ok {
            Ok(ServiceName(owned))
        } else {
            Err(ServiceNameError(owned))
        }
    }

    /// Accepts the owned string `s` exactly when it is a valid name.
    pub fn try_from(s: String) -> (r: Result<ServiceName, ServiceNameError>)
        ensures
            r is Ok <==> is_valid_name(encode_utf8(s@)),
            r matches Ok(n) ==> n@ == s@,
            r matches Err(e) ==> e@ == s@,
    {
        if bytes_form_valid_name(s.as_str().as_bytes()) {
            Ok(ServiceName(s))
        } else {
            Err(ServiceNameError(s))
        }
    }

    /// Every name obeys the naming rule: a proof that holds a name learns it here.
    pub fn check_naming_rule(&self)
        ensures
            is_valid_name(self.bytes()),
    {
        proof {
            use_type_invariant(self);
        }
    }

    /// The name as text.
    pub fn as_str(&self) -> (r: &str)
        ensures
            r@ == self@,
    {
        self.0.as_str()
    }

    /// The name as owned text.
    pub fn into_string(self) -> (r: String)
        ensures
            r@ == self@,
    {
        self.0
    }

    /// Whether two names are the same text.
    pub fn same_as(&self, other: &ServiceName) -> (r: bool)
        ensures
            r == (self@ == other@),
    {
        self.0 == other.0
    }
}

impl Clone for ServiceName {
    fn clone(&self) -> (r: ServiceName)
        ensures
            r@ == self@,
    {
        proof {
            use_type_invariant(self);
        }
        ServiceName(self.0.clone())
    }
}

impl ServiceNameError {
    /// The text that was refused.
    pub fn as_str(&self) -> (r: &str)
        ensures
            r@ == self@,
    {
        self.0.as_str()
    }

    /// The message that reports this refusal.
    pub fn to_string(&self) -> (r: String)
        ensures
            r@ == "invalid service name: "@ + self@,
    {
        let mut m = String::from_str("invalid service name: ");
        m.append(self.0.as_str());
        m
    }
}

/// How a service relates to another one it names.
#[derive(Copy, Clone, Debug, PartialEq, Eq, Structural)]
pub enum DepKind {
    /// Hard requirement: pull the target in, start it first, fail if it fails.
    /// On shutdown, dependants are stopped before the target.
    Need,
    /// Like `Need`, but the target's failure is tolerated.
    Want,
    /// Order after the target only if something else already put it in the plan.
    Use,
    /// Pure ordering: target first if present, no functional claim.
    After,
    /// Mirror of `After`: this service starts first and stops last.
    Before,
}

/// A dependency on another service.
#[derive(Debug)]
pub struct Dependency {
    pub kind: DepKind,
    pub target: ServiceName,
}

/// The declarative half of a unit: the service's name and its place among others.
#[derive(Debug)]
pub struct Service {
    pub name: ServiceName,
    pub desc: String,
    pub provides: Vec<ServiceName>,
    pub deps: Vec<Dependency>,
    pub runlevels: Vec<String>,
}

} // verus!
