use vstd::prelude::*;
use vstd::arithmetic::div_mod::{
    lemma_div_is_strictly_smaller, lemma_fundamental_div_mod, lemma_mod_multiples_basic,
    lemma_remainder,
};

verus! {

/// `n` is a prime number: at least 2, and no integer in `2..n` divides it.
pub open spec fn is_prime_spec(n: int) -> bool {
    &&& n >= 2
    &&& forall|d: int| 2 <= d < n ==> #[trigger] (n % d) != 0
}

/// A divisor `d >= i` of `x` below `x` has a cofactor below `i` that also divides `x`,
/// whenever `x < i * i` (expressed as `x / i < i`).
proof fn lemma_small_cofactor(x: int, i: int, d: int) -> (e: int)
    requires
        2 <= i,
        i <= d < x,
        x / i < i,
        x % d == 0,
    ensures
        2 <= e < i,
        x % e == 0,
{
    let e = x / d;
    let q = x / i;
    let r = x % i;
    lemma_fundamental_div_mod(x, d);
    lemma_fundamental_div_mod(x, i);
    lemma_remainder(x, i);
    assert(x == d * e);
    assert(x < i * i) by (nonlinear_arith)
        requires
            x == i * q + r,
            r < i,
            q < i,
            i > 0,
    ;
    assert(e >= 2) by (nonlinear_arith)
        requires
            x == d * e,
            d < x,
            d > 0,
    ;
    assert(e < i) by (nonlinear_arith)
        requires
            x == d * e,
            d >= i,
            x < i * i,
            i > 0,
            e >= 0,
    ;
    lemma_mod_multiples_basic(d, e);
    e
}

/// Whether `n` is a prime number, by trial division up to its square root.
pub fn is_prime(n: &u64) -> (r: bool)
    ensures
        r == is_prime_spec(*n as int),
{
    let x: u64 = *n;
    if x < 2 {
        return false;
    }
    let mut i: u64 = 2;
    while i <= x / i
        invariant
            x == *n,
            2 <= i,
            2 <= x,
            forall|d: int| 2 <= d < i ==> #[trigger] ((x as int) % d) != 0,
        decreases x - i,
    {
        if x % i == 0 {
            proof {
                lemma_div_is_strictly_smaller(x as int, i as int);
            }
            assert((x as int) % (i as int) == 0);
            return false;
        }
        proof {
            lemma_div_is_strictly_smaller(x as int, i as int);
        }
        i = i + 1;
    }
    assert forall|d: int| 2 <= d < x implies #[trigger] ((x as int) % d) != 0 by {
        if d >= i && (x as int) % d == 0 {
            let e = lemma_small_cofactor(x as int, i as int, d);
            assert((x as int) % e != 0);
        }
    }
    true
}

/// The `number` field of a request, as far as the answer depends on it: a JSON number
/// that is a non-negative integer fitting in a `u64`, or any other JSON number
/// (negative, fractional, or too large).
#[derive(Clone, Copy, Debug, PartialEq, Eq, Structural)]
pub enum RequestNumber {
    Unsigned(u64),
    Other,
}

/// A request that was well-formed JSON with a string `method` and a numeric `number`.
#[derive(Debug)]
pub struct PrimeRequest {
    pub method: String,
    pub number: RequestNumber,
}

/// What the server answers to one request line.
#[derive(Clone, Copy, Debug, PartialEq, Eq, Structural)]
pub enum PrimeReply {
    /// A conforming response: `{"method":"isPrime","prime":<bool>}`.
    Answer(bool),
    /// A malformed response; the connection is closed after it.
    Malformed,
}

/// The method name that a conforming request carries.
pub open spec fn is_prime_method(method: Seq<char>) -> bool {
    method == "isPrime"@
}

/// Whether a request number is a prime: only non-negative integers can be.
pub open spec fn number_is_prime(number: RequestNumber) -> bool {
    match number {
        RequestNumber::Unsigned(u) => is_prime_spec(u as int),
        RequestNumber::Other => false,
    }
}

/// The reply owed to a request line; `None` stands for a line that did not parse
/// as a request object.
pub open spec fn spec_reply(request: Option<PrimeRequest>) -> PrimeReply {
    match request {
        Some(req) => if is_prime_method(req.method@) {
            PrimeReply::Answer(number_is_prime(req.number))
        } else {
            PrimeReply::Malformed
        },
        None => PrimeReply::Malformed,
    }
}

/// Decides the reply to one request line.
pub fn reply_to(request: &Option<PrimeRequest>) -> (r: PrimeReply)
    ensures
        r == spec_reply(*request),
{
    broadcast use vstd::string::to_string_from_display_ensures_for_str;

    match request {
        Some(req) => {
            let expected: String = "isPrime".to_string();
            if req.method == expected {
                match req.number {
                    RequestNumber::Unsigned(u) => PrimeReply::Answer(is_prime(&u)),
                    RequestNumber::Other => PrimeReply::Answer(false),
                }
            } else {
                PrimeReply::Malformed
            }
        },
        None => PrimeReply::Malformed,
    }
}

/// Law: a conforming request for a non-negative integer `n` is answered `true` exactly
/// when `n` is at least 2 and no integer from 2 to `n - 1` divides it.
pub proof fn lemma_reply_is_primality(req: PrimeRequest, n: u64)
    requires
        req.method@ == "isPrime"@,
        req.number == RequestNumber::Unsigned(n),
    ensures
        spec_reply(Some(req)) == PrimeReply::Answer(
            n >= 2 && forall|d: int| 2 <= d < n ==> #[trigger] ((n as int) % d) != 0,
        ),
{
}

/// Law: a conforming request for a product of two integers that are both at least 2
/// is answered `false`; squares of primes included.
pub proof fn lemma_products_are_not_prime(req: PrimeRequest, a: u64, b: u64)
    requires
        req.method@ == "isPrime"@,
        a >= 2,
        b >= 2,
        a * b <= u64::MAX,
        req.number == RequestNumber::Unsigned((a * b) as u64),
    ensures
        spec_reply(Some(req)) == PrimeReply::Answer(false),
{
    let n = (a * b) as int;
    assert(a < n) by (nonlinear_arith)
        requires n == a * b, b >= 2, a >= 2;
    lemma_mod_multiples_basic(b as int, a as int);
    assert(n == b * a) by (nonlinear_arith)
        requires n == a * b;
    assert(n % (a as int) == 0);
}

/// Law: a request with any other method, or one that is not a request object, is
/// answered as malformed.
pub proof fn lemma_other_requests_malformed(req: PrimeRequest)
    requires
        req.method@ != "isPrime"@,
    ensures
        spec_reply(Some(req)) == PrimeReply::Malformed,
        spec_reply(None) == PrimeReply::Malformed,
{
}

} // verus!
