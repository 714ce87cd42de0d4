use protohackers::prime_time::{is_prime, reply_to, PrimeReply, PrimeRequest, RequestNumber};

#[test]
fn small_numbers() {
    let primes: Vec<u64> = (0..60u64).filter(|n| is_prime(n)).collect();
    assert_eq!(
        primes,
        vec![2, 3, 5, 7, 11, 13, 17, 19, 23, 29, 31, 37, 41, 43, 47, 53, 59]
    );
}

#[test]
fn larger_numbers() {
    assert!(is_prime(&7919));
    assert!(is_prime(&1_000_000_007));
    assert!(is_prime(&4_294_967_291));
    assert!(!is_prime(&(65521 * 65521)));
    assert!(!is_prime(&(4_294_967_291 * 3)));
    assert!(!is_prime(&1_000_000_000));
}

fn request(method: &str, number: RequestNumber) -> Option<PrimeRequest> {
    Some(PrimeRequest { method: method.to_string(), number })
}

#[test]
fn replies() {
    assert_eq!(
        reply_to(&request("isPrime", RequestNumber::Unsigned(7))),
        PrimeReply::Answer(true)
    );
    assert_eq!(
        reply_to(&request("isPrime", RequestNumber::Unsigned(8))),
        PrimeReply::Answer(false)
    );
    assert_eq!(
        reply_to(&request("isPrime", RequestNumber::Other)),
        PrimeReply::Answer(false)
    );
    assert_eq!(
        reply_to(&request("isprime", RequestNumber::Unsigned(7))),
        PrimeReply::Malformed
    );
    assert_eq!(reply_to(&None), PrimeReply::Malformed);
}
