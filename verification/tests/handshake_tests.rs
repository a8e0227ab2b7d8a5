use splicetcp::handshake::{next_isn, IsnSource};

#[test]
fn test_next_isn_distinct_values() {
    let mut source = IsnSource::new();
    let mut seen = std::collections::HashSet::new();
    for _ in 0..1000 {
        let isn = next_isn(&mut source);
        assert!(seen.insert(isn), "next_isn produced duplicate {isn:08x}");
    }
}
