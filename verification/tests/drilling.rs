use rust_tydi_packages::binary::TydiBinary;
use rust_tydi_packages::drilling::{
    packets_from_binaries, split_groups, without_absent, TydiConvert, TydiDrill,
    TydiPacktestToBinary,
};
use rust_tydi_packages::error::TydiError;
use rust_tydi_packages::TydiPacket;

#[derive(Debug, Clone, PartialEq, Eq)]
struct Post {
    id: u32,
    title: String,
    tags: Vec<String>,
    scores: Vec<u8>,
}

fn post(id: u32, tags: &[&str]) -> Post {
    Post {
        id,
        title: String::new(),
        tags: tags.iter().map(|t| t.to_string()).collect(),
        scores: Vec::new(),
    }
}

fn packet<T>(data: Option<T>, last: &[bool]) -> TydiPacket<T> {
    TydiPacket { data, last: last.to_vec() }
}

#[test]
fn convert_flags_the_last_item() {
    let stream = vec![7u8, 8, 9].convert();
    assert_eq!(
        stream,
        vec![packet(Some(7), &[false]), packet(Some(8), &[false]), packet(Some(9), &[true])]
    );
    let items = [1u8];
    let slice: &[u8] = &items;
    assert_eq!(slice.convert(), vec![packet(Some(1), &[true])]);
    assert_eq!(Vec::<u8>::new().convert(), Vec::<TydiPacket<u8>>::new());
}

#[test]
fn drill_two_posts_one_without_tags() {
    let posts = vec![post(0, &["a", "b"]), post(1, &[])].convert();
    let tags = posts.drill(|p| p.tags.clone());
    assert_eq!(
        tags,
        vec![
            packet(Some("a".to_string()), &[false, false]),
            packet(Some("b".to_string()), &[false, true]),
            packet(None, &[true, true]),
        ]
    );
}

#[test]
fn drill_keeps_the_outer_flags_and_the_order() {
    let stream = vec![
        packet(Some(vec![1u8, 2, 3]), &[false, false]),
        packet(Some(vec![]), &[true, false]),
        packet(None, &[false, true]),
        packet(Some(vec![4]), &[true, true]),
    ];
    let drilled = stream.drill(|v| v);
    assert_eq!(
        drilled,
        vec![
            packet(Some(1), &[false, false, false]),
            packet(Some(2), &[false, false, false]),
            packet(Some(3), &[false, false, true]),
            packet(None, &[true, false, true]),
            packet(None, &[false, true, false]),
            packet(Some(4), &[true, true, true]),
        ]
    );
}

#[test]
fn drill_twice_opens_two_levels() {
    let posts = vec![post(0, &["ab", ""]), post(1, &[])].convert();
    let letters = posts.drill(|p| p.tags.clone()).drill(|t| t.as_bytes().to_vec());
    assert_eq!(
        letters,
        vec![
            packet(Some(b'a'), &[false, false, false]),
            packet(Some(b'b'), &[false, false, true]),
            packet(None, &[false, true, true]),
            packet(None, &[true, true, false]),
        ]
    );
}

#[test]
fn vectorize_inner_undoes_drill() {
    let groups: Vec<Vec<u8>> = vec![vec![1, 2, 3], vec![], vec![4]];
    let stream = groups.clone().convert();
    let drilled = stream.drill(|g| g);
    let back = drilled.vectorize_inner();
    assert_eq!(
        back,
        vec![
            packet(Some(vec![1, 2, 3]), &[false]),
            packet(Some(vec![]), &[false]),
            packet(Some(vec![4]), &[true]),
        ]
    );
    assert_eq!(back, groups.convert());
}

#[test]
fn vectorize_undoes_drill() {
    let groups: Vec<Vec<u8>> = vec![vec![1, 2, 3], vec![], vec![4]];
    let drilled = groups.convert().drill(|g| g);
    assert_eq!(
        drilled.vectorize(),
        vec![
            vec![packet(Some(1), &[false]), packet(Some(2), &[false]), packet(Some(3), &[false])],
            vec![],
            vec![packet(Some(4), &[true])],
        ]
    );
}

#[test]
fn vectorize_inner_keeps_an_element_without_payload() {
    let stream: Vec<TydiPacket<u8>> = vec![
        packet(Some(1), &[false, true]),
        packet(None, &[false, false]),
        packet(None, &[true, true]),
    ];
    assert_eq!(
        stream.vectorize_inner(),
        vec![packet(Some(vec![1]), &[false]), packet(None, &[false]), packet(Some(vec![]), &[true])]
    );
}

#[test]
fn vectorize_inner_drops_what_follows_the_last_flag() {
    let stream: Vec<TydiPacket<u8>> = vec![packet(Some(1), &[true]), packet(Some(2), &[false])];
    assert_eq!(stream.vectorize_inner(), vec![packet(Some(vec![1]), &[])]);
}

#[test]
fn vectorize_groups_packets() {
    let stream: Vec<TydiPacket<u8>> = vec![
        packet(Some(1), &[false, false]),
        packet(Some(2), &[false, true]),
        packet(None, &[false, true]),
        packet(Some(3), &[true, true]),
    ];
    assert_eq!(
        stream.vectorize(),
        vec![
            vec![packet(Some(1), &[false]), packet(Some(2), &[false])],
            vec![],
            vec![packet(Some(3), &[true])],
        ]
    );
}

#[test]
fn vectorize_keeps_a_packet_without_payload_inside_a_group() {
    let stream: Vec<TydiPacket<u8>> = vec![
        packet(Some(1), &[false]),
        packet(None, &[false]),
        packet(None, &[true]),
        packet(Some(2), &[false]),
    ];
    // The flagged packet without payload meets an open group that is not
    // empty, so it is a member of it. The packet behind the last flag is in
    // no group.
    assert_eq!(
        stream.vectorize(),
        vec![vec![packet(Some(1), &[]), packet(None, &[]), packet(None, &[])]]
    );
}

#[test]
fn inject_gives_every_parent_its_group() {
    let given = vec![post(0, &["a", "b"]), post(1, &[]), post(2, &["c"])];
    let stream = given.clone().convert();
    let tags = stream.drill(|p| p.tags.clone());
    let mut bare: Vec<TydiPacket<Post>> =
        given.iter().map(|p| post(p.id, &[])).collect::<Vec<Post>>().convert();
    assert_eq!(bare.inject(|p| &mut p.tags, tags), Ok(()));
    assert_eq!(bare, stream);
}

#[test]
fn inject_appends_to_what_the_field_holds() {
    let mut parents = vec![packet(Some(post(0, &["x"])), &[true])];
    let child = vec![packet(Some("y".to_string()), &[true, false]), packet(Some("z".to_string()), &[true, true])];
    assert_eq!(parents.inject(|p| &mut p.tags, child), Ok(()));
    assert_eq!(parents[0].data.as_ref().unwrap().tags, vec!["x", "y", "z"]);
    assert_eq!(parents[0].last, vec![true]);
}

#[test]
fn inject_skips_a_parent_without_payload() {
    let mut parents: Vec<TydiPacket<Post>> = vec![
        packet(None, &[false]),
        packet(Some(post(1, &[])), &[true]),
    ];
    let child = vec![packet(Some("a".to_string()), &[true, true])];
    assert_eq!(parents.inject(|p| &mut p.tags, child), Ok(()));
    assert_eq!(parents[0], packet(None, &[false]));
    assert_eq!(parents[1].data.as_ref().unwrap().tags, vec!["a"]);
}

#[test]
fn inject_fails_when_the_child_ends_early() {
    let before = vec![packet(Some(post(0, &[])), &[false]), packet(Some(post(1, &[])), &[true])];
    let mut parents = before.clone();
    // The second parent finds no group.
    let child = vec![packet(Some("a".to_string()), &[false, true])];
    assert_eq!(parents.inject(|p| &mut p.tags, child), Err(TydiError::MisalignedStream));
    assert_eq!(parents, before);
    // The group of the first parent is never closed.
    let child = vec![packet(Some("a".to_string()), &[false, false])];
    assert_eq!(parents.inject(|p| &mut p.tags, child), Err(TydiError::MisalignedStream));
    assert_eq!(parents, before);
    assert_eq!(parents.inject(|p| &mut p.tags, vec![]), Err(TydiError::MisalignedStream));
}

#[test]
fn inject_fails_on_an_empty_marker_inside_a_group() {
    let before = vec![packet(Some(post(0, &[])), &[true])];
    let mut parents = before.clone();
    let child = vec![packet(Some("a".to_string()), &[true, false]), packet(None, &[true, true])];
    assert_eq!(parents.inject(|p| &mut p.tags, child), Err(TydiError::MisalignedStream));
    assert_eq!(parents, before);
}

#[test]
fn inject_fails_on_a_packet_without_flag() {
    let mut parents = vec![packet(Some(post(0, &[])), &[true])];
    let child = vec![packet(Some("a".to_string()), &[])];
    assert_eq!(parents.inject(|p| &mut p.tags, child), Err(TydiError::MisalignedStream));
}

#[test]
fn inject_numbers_into_a_field() {
    let mut parents = vec![packet(Some(post(0, &[])), &[false]), packet(Some(post(1, &[])), &[true])];
    let child = vec![
        packet(Some(1u8), &[false, false]),
        packet(Some(2u8), &[false, false]),
        packet(Some(3u8), &[false, true]),
        packet(None, &[true, true]),
        packet(Some(9u8), &[true, true]),
    ];
    assert_eq!(parents.inject(|p| &mut p.scores, child), Ok(()));
    assert_eq!(parents[0].data.as_ref().unwrap().scores, vec![1, 2, 3]);
    assert_eq!(parents[1].data.as_ref().unwrap().scores, Vec::<u8>::new());
}

#[test]
fn inject_string_puts_texts_back() {
    let mut given = vec![post(0, &[]), post(1, &[]), post(2, &[])];
    given[0].title = "Hello".to_string();
    given[2].title = "héllo wörld".to_string();
    let stream = given.clone().convert();
    let titles = stream.drill(|p| p.title.as_bytes().to_vec());
    let mut bare = vec![post(0, &[]), post(1, &[]), post(2, &[])].convert();
    assert_eq!(bare.inject_string(|p| &mut p.title, titles), Ok(()));
    assert_eq!(bare, stream);
}

#[test]
fn inject_string_replaces_the_field() {
    let mut p = post(0, &[]);
    p.title = "old".to_string();
    let mut parents = vec![packet(Some(p), &[true])];
    let child = vec![packet(Some(b'n'), &[true, false]), packet(Some(b'o'), &[true, true])];
    assert_eq!(parents.inject_string(|p| &mut p.title, child), Ok(()));
    assert_eq!(parents[0].data.as_ref().unwrap().title, "no");
}

#[test]
fn inject_string_refuses_what_is_no_text() {
    let before = vec![packet(Some(post(0, &[])), &[true])];
    let mut parents = before.clone();
    let child = vec![packet(Some(0xFFu8), &[true, true])];
    assert_eq!(parents.inject_string(|p| &mut p.title, child), Err(TydiError::InvalidText));
    assert_eq!(parents, before);
    let child = vec![packet(Some(b'a'), &[true, false])];
    assert_eq!(parents.inject_string(|p| &mut p.title, child), Err(TydiError::MisalignedStream));
    assert_eq!(parents, before);
}

#[test]
fn split_groups_follows_the_innermost_flag() {
    let child = vec![
        packet(Some(1u8), &[false]),
        packet(Some(2u8), &[true]),
        packet(None, &[true]),
        packet(Some(3u8), &[true]),
        packet(Some(4u8), &[true]),
    ];
    let groups = split_groups(&vec![true, false, true, true], child).unwrap();
    assert_eq!(groups, vec![vec![1, 2], vec![], vec![], vec![3]]);
    assert_eq!(split_groups::<u8>(&vec![], vec![]), Ok(vec![]));
    assert_eq!(split_groups::<u8>(&vec![false], vec![]), Ok(vec![vec![]]));
    assert_eq!(split_groups::<u8>(&vec![true], vec![]), Err(TydiError::MisalignedStream));
}

#[test]
fn finish_and_packets_from_binaries_round_trip() {
    let stream = vec![
        packet(Some(0x0102u16), &[false, true]),
        packet(None, &[true, true]),
        packet(Some(0xFFFFu16), &[true, true]),
    ];
    let binaries = stream.finish(16);
    assert_eq!(binaries.len(), 3);
    for b in binaries.iter() {
        assert_eq!(b.len, 19);
    }
    assert_eq!(binaries[1], TydiBinary { data: vec![0b110, 0, 0], len: 19 });
    let back: Vec<TydiPacket<u16>> = packets_from_binaries(binaries, 2);
    assert_eq!(back, stream);
}

#[test]
fn finish_of_an_empty_stream() {
    let stream: Vec<TydiPacket<u8>> = vec![];
    assert_eq!(stream.finish(8), Vec::<TydiBinary>::new());
    let back: Vec<TydiPacket<u8>> = packets_from_binaries(vec![], 3);
    assert!(back.is_empty());
}

#[test]
fn whole_way_there_and_back() {
    let given = vec![post(0, &["a", "bc"]), post(1, &[]), post(2, &["d"])];
    let posts = given.clone().convert();
    let tags = posts.drill(|p| p.tags.clone());
    let letters = tags.drill(|t| t.as_bytes().to_vec());
    let wire = letters.finish(8);
    let letters_back: Vec<TydiPacket<u8>> = packets_from_binaries(wire, 3);
    assert_eq!(letters_back, letters);
    let words: Vec<TydiPacket<String>> = letters_back
        .vectorize_inner()
        .into_iter()
        .map(|p| p.map_data(|bytes| String::from_utf8(bytes).unwrap()))
        .collect();
    assert_eq!(words, tags);
    let mut bare = vec![post(0, &[]), post(1, &[]), post(2, &[])].convert();
    // The marker of the post without tags has no payload: as a packet of
    // texts it closes an empty group.
    assert_eq!(bare.inject(|p| &mut p.tags, words), Ok(()));
    assert_eq!(bare, posts);
}

#[test]
fn without_absent_drops_what_stands_for_no_element() {
    let stream: Vec<TydiPacket<u8>> = vec![
        packet(Some(1), &[false, false]),
        packet(None, &[false, false]),
        packet(None, &[false, true]),
        packet(None, &[]),
        packet(Some(2), &[true, true]),
        packet(None, &[true, false]),
    ];
    assert_eq!(
        without_absent(stream),
        vec![
            packet(Some(1), &[false, false]),
            packet(None, &[false, true]),
            packet(None, &[]),
            packet(Some(2), &[true, true]),
        ]
    );
    assert_eq!(without_absent(Vec::<TydiPacket<u8>>::new()), vec![]);
}

#[test]
fn inject_after_drill_with_an_element_without_payload() {
    // Three posts; the second one has no comment, so that the stream of
    // comments holds a marker for it, which has no title.
    let parents: Vec<TydiPacket<Post>> = vec![
        packet(Some(post(0, &["a"])), &[false, false]),
        packet(None, &[false, true]),
        packet(Some(post(2, &["b", "c"])), &[true, true]),
    ];
    let tags = parents.drill(|p| p.tags.clone());
    assert_eq!(
        tags,
        vec![
            packet(Some("a".to_string()), &[false, false, true]),
            packet(None, &[false, true, false]),
            packet(Some("b".to_string()), &[true, true, false]),
            packet(Some("c".to_string()), &[true, true, true]),
        ]
    );
    let mut bare: Vec<TydiPacket<Post>> = vec![
        packet(Some(post(0, &[])), &[false, false]),
        packet(None, &[false, true]),
        packet(Some(post(2, &[])), &[true, true]),
    ];
    assert_eq!(bare.inject(|p| &mut p.tags, without_absent(tags)), Ok(()));
    assert_eq!(bare, parents);
}
