use lib::dispatch::{select, Backend};

#[test]
fn backend_priority() {
    for (sha_ni, avx2_bmi2, expected) in [
        (true, true, Backend::ShaNi),
        (true, false, Backend::ShaNi),
        (false, true, Backend::Avx2),
        (false, false, Backend::Soft),
    ] {
        assert_eq!(
            select(sha_ni, || avx2_bmi2),
            expected,
            "SHA-NI={sha_ni}, AVX2/BMI2={avx2_bmi2}"
        );
    }
}

#[test]
fn sha_ni_skips_avx2_probe() {
    assert_eq!(
        select(true, || panic!("AVX2 probe must not run on SHA-NI hosts")),
        Backend::ShaNi
    );
}

#[test]
fn probe_runs_once_without_sha_ni() {
    let mut calls = 0;
    let backend = select(false, || {
        calls += 1;
        true
    });
    assert_eq!(backend, Backend::Avx2);
    assert_eq!(calls, 1);
}
