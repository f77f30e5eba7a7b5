use bencodec::id::generate_id;

#[test]
fn test_id() {
    let mut prev_ids = Vec::new();
    for _ in 0..64 {
        let id = generate_id();

        // Verify length
        assert_eq!(20, id.len());

        // Verify prefix
        for (expected, received) in "-FK0010-".as_bytes().iter().zip(id.iter()) {
            assert_eq!(expected, received);
        }

        // Check that we didn't collide
        for prev in prev_ids.iter() {
            assert!(id != *prev);
        }
        prev_ids.push(id);
    }
}
