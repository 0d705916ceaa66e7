use rezip::all_refs::Key;
use rezip::back_map::BackMap;
use rezip::sixteen_refs::AllRefs as SixteenRefs;
use rezip::Ref;
use rezip::bad_table::NicerTable;

#[test]
fn nicer() {
    //                       0123456
    let window: &[u8; 7] = b"oabcabc";
    let table = NicerTable::from_window(window);

    let mut chain = table.get(Key::from((b'a', b'b', b'c')));
    assert_eq!(Some(4), chain.next());
    assert_eq!(Some(1), chain.next());
    assert_eq!(None, chain.next());

    let mut chain = table.get(Key::from((b'o', b'a', b'b')));
    assert_eq!(Some(0), chain.next());
    assert_eq!(None, chain.next());
}

#[test]
fn unseen_hash_chains_to_the_start() {
    let table = NicerTable::from_window(b"aaaa");
    let mut chain = table.get(Key::from((b'x', b'y', b'z')));
    assert_eq!(Some(0), chain.next());
    assert_eq!(None, chain.next());

    let mut chain = table.get(Key::from((b'a', b'a', b'a')));
    assert_eq!(Some(1), chain.next());
    assert_eq!(None, chain.next());
}

#[test]
fn colliding_hashes_share_a_chain() {
    // "Ooo" and "ooo" hash alike
    let table = NicerTable::from_window(b"xOoo-ooo");
    let mut chain = table.get(Key::from((b'o', b'o', b'o')));
    assert_eq!(Some(5), chain.next());
    assert_eq!(Some(1), chain.next());
    assert_eq!(None, chain.next());
}

#[test]
fn back_map_over_preroll_and_data() {
    //                        0 123456
    let table = BackMap::from_window(b"x", b"abcabc");

    let mut chain = table.get(Key::from((b'a', b'b', b'c')));
    assert_eq!(Some(4), chain.next());
    assert_eq!(Some(1), chain.next());
    assert_eq!(None, chain.next());

    let mut chain = table.get(Key::from((b'x', b'a', b'b')));
    assert_eq!(Some(0), chain.next());
    assert_eq!(None, chain.next());
}

#[test]
fn back_map_never_links_to_the_first_position() {
    let table = BackMap::from_window(b"", b"abcabc");
    let mut chain = table.get(Key::from((b'a', b'b', b'c')));
    assert_eq!(Some(3), chain.next());
    assert_eq!(None, chain.next());
}

#[test]
fn sixteen_refs_follow_the_chain() {
    //                                     0123456789
    let refs = SixteenRefs::with_sixteen(b"x", b"abcabcabc", 10);
    assert_eq!(10, refs.data_len());
    assert_eq!(b'x', refs.get(0));
    assert_eq!(b'c', refs.get(9));
    assert_eq!(Some(vec![Ref::new(3, 3), Ref::new(6, 3)]), refs.at(7, &[]));
    assert_eq!(Some(vec![Ref::new(3, 6)]), refs.at(4, &[]));
    assert_eq!(Some(vec![]), refs.at(1, &[]));
    assert_eq!(Some(vec![]), refs.at(0, &[]));
    assert_eq!(None, refs.at(8, &[]));
}

#[test]
fn sixteen_refs_limit_and_obscure() {
    let refs = SixteenRefs::with_sixteen(b"x", b"abcabcabc", 1);
    assert_eq!(Some(vec![Ref::new(3, 3)]), refs.at(7, &[]));

    let refs = SixteenRefs::with_sixteen(b"x", b"abcabcabc", 10);
    assert_eq!(Some(vec![Ref::new(6, 3)]), refs.at(7, &[(3, 2)]));
}

#[test]
fn sixteen_refs_never_reach_the_first_position() {
    //                                     0123456789ab
    let refs = SixteenRefs::with_sixteen(b"", b"abcdabcdabcd", 10);
    assert_eq!(Some(vec![Ref::new(4, 4)]), refs.at(8, &[]));
    assert_eq!(Some(vec![]), refs.at(4, &[]));
}

#[test]
fn sixteen_refs_skip_hash_collisions() {
    //                                     0123456
    let refs = SixteenRefs::with_sixteen(b"xOoo", b"ooo", 10);
    assert_eq!(Some(vec![Ref::new(1, 3), Ref::new(2, 3)]), refs.at(4, &[]));

    let refs = SixteenRefs::with_sixteen(b"xOoo", b"ooo", 2);
    assert_eq!(Some(vec![Ref::new(1, 3), Ref::new(2, 3)]), refs.at(4, &[]));

    let refs = SixteenRefs::with_sixteen(b"zabcdefgh", b"abcdefgh", 10);
    assert_eq!(Some(vec![Ref::new(8, 8)]), refs.at(9, &[]));
}
