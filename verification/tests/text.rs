use kx_gateway::text::{hex_lower, hex_to_32};

#[test]
fn hex_round_trips() {
    let mut b = [0u8; 32];
    for (i, x) in b.iter_mut().enumerate() {
        *x = (i as u8).wrapping_mul(37).wrapping_add(11);
    }
    let h = hex_lower(&b);
    assert_eq!(h.len(), 64);
    assert_eq!(hex_to_32(&h), Some(b));
    assert_eq!(hex_to_32(&h.to_uppercase()), Some(b), "either case decodes");
    assert_eq!(hex_to_32(&h[..62]), None);
    assert_eq!(hex_to_32(&format!("{}zz", &h[..62])), None);
}
