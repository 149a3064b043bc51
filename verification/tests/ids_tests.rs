use storestest::records::Leaf;
use storestest::records::Mid;

#[test]
fn ten_thousand_generated_identifiers_do_not_collide() {
    // gather 10,000 of the generator's values and check them pairwise
    // distinct, as the record model assumes
    let mut ids: Vec<u128> = Vec::new();
    for _ in 0..10_000 {
        ids.push(uuid::Uuid::new_v4().as_u128());
    }
    ids.sort();
    for w in ids.windows(2) {
        assert_ne!(w[0], w[1]);
    }
}

#[test]
fn shown_identifier_is_the_hyphenated_form() {
    let id: u128 = 0x0123_4567_89ab_cdef_0123_4567_89ab_cdef;
    let leaf = Leaf::new(id);
    let text = leaf.show();
    assert_eq!(text.len(), 36);
    assert_eq!(text, uuid::Uuid::from_u128(id).to_string());
    assert_eq!(text, "01234567-89ab-cdef-0123-456789abcdef");
    let mid = Mid::new(id, vec![leaf]);
    assert_eq!(mid.show(), text);
}

#[test]
fn equal_identifiers_show_equally_and_distinct_ones_differ() {
    let a = Leaf::new(7).show();
    let b = Leaf::new(7).show();
    let c = Leaf::new(8).show();
    assert_eq!(a, b);
    assert_ne!(a, c);
}
