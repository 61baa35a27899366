use rust_tydi_packages::binary::{FromTydiBinary, TydiBinary};
use rust_tydi_packages::error::TydiError;
use rust_tydi_packages::{encode_packet, TydiPacket, TydiStream, TydiVec};

#[derive(Debug, PartialEq, Eq, Clone)]
struct Comment {
    comment_id: u32,
    author: Author,
    content: String,
    created_at: String,
    likes: u32,
    in_reply_to_comment_id: Option<u32>,
}

#[derive(Debug, PartialEq, Eq, Clone)]
struct Author {
    user_id: u32,
    username: String,
}

impl From<Author> for TydiBinary {
    fn from(author: Author) -> TydiBinary {
        author.user_id.into()
    }
}

impl From<Comment> for TydiBinary {
    fn from(comment: Comment) -> TydiBinary {
        let binaries: Vec<TydiBinary> = vec![
            comment.comment_id.into(),
            comment.author.into(),
            comment.likes.into(),
        ];
        binaries.iter().fold(TydiBinary::empty(), |acc, e| acc.concatenate(e)).clone()
    }
}

impl From<TydiBinary> for Comment {
    fn from(bin: TydiBinary) -> Self {
        let (comment_id, remainder) = bin.split_for();
        let (author_id, remainder) = remainder.split_for();
        let (likes, _remainder) = remainder.split_for();

        Comment {
            comment_id,
            author: Author {
                user_id: author_id,
                username: "".to_string(),
            },
            content: "".to_string(),
            created_at: "".to_string(),
            likes,
            in_reply_to_comment_id: None,
        }
    }
}

#[test]
fn test_struct_packing() {
    let data = Comment {
        comment_id: 1,
        author: Author {
            user_id: 789,
            username: "CultureVulture".into()
        },
        content: "Oh, Andalusia is truly magical! Did you get a chance to see any flamenco shows in Seville?".into(),
        created_at: "2025-06-15T12:05:00Z".into(),
        likes: 10,
        in_reply_to_comment_id: None,
    };

    let bin = TydiBinary::from(data);
    println!("{}", bin.to_string());
    println!("{:?}", bin);
    let reconstructed: Comment = bin.into();
    println!("{:?}", reconstructed);
    println!("done");
    assert_eq!(reconstructed.comment_id, 1);
    assert_eq!(reconstructed.author.user_id, 789);
    assert_eq!(reconstructed.likes, 10);
}

#[test]
fn test_packing() {
    let num_bytes: [u8; 8] = [0xed, 0x1, 0x0, 0x0, 0x20, 0x7, 0x0, 0x0];
    let num = u64::from_ne_bytes(num_bytes);
    let packet = TydiPacket {
        data: Some(num),
        last: vec![true],
    };
    let bin = packet.to_binary(64);
    let reconstructed: TydiPacket<u64> = TydiPacket::from_binary(bin, 1);
    assert_eq!(reconstructed.data, Some(num));
}

#[test]
fn packet_layout_is_strobe_flags_payload() {
    let packet = TydiPacket { data: Some(0xA5u8), last: vec![true, false] };
    let bin = packet.to_binary(8);
    assert_eq!(bin.len, 11);
    // bit 0: strobe; bits 1 and 2: the flags; bits 3 to 10: the payload
    assert_eq!(bin.to_string(), "0b10100101011");
    assert_eq!(bin.data, vec![0b00101_011, 0b101]);
}

#[test]
fn packet_without_payload_is_filled_with_zero() {
    let packet: TydiPacket<u16> = TydiPacket { data: None, last: vec![true, true, false] };
    let bin = packet.to_binary(16);
    assert_eq!(bin.len, 20);
    assert_eq!(bin.data, vec![0b0000_0110, 0, 0]);
    let back: TydiPacket<u16> = TydiPacket::from_binary(bin, 3);
    assert_eq!(back, TydiPacket { data: None, last: vec![true, true, false] });
}

fn there_and_back<T>(value: T, width: usize)
where
    T: Into<TydiBinary> + FromTydiBinary + PartialEq + std::fmt::Debug + Clone,
{
    let bin = TydiPacket { data: Some(value.clone()), last: vec![] }.to_binary(width);
    assert_eq!(bin.len, 1 + width);
    let back: TydiPacket<T> = TydiPacket::from_binary(bin, 0);
    assert_eq!(back, TydiPacket { data: Some(value), last: vec![] });
}

#[test]
fn packet_round_trip_without_flags() {
    for v in [0u8, u8::MAX, 0xAA, 0x55] {
        there_and_back(v, 8);
    }
    for v in [0u16, u16::MAX, 0xAAAA, 0x5555] {
        there_and_back(v, 16);
    }
    for v in [0u32, u32::MAX, 0xAAAA_AAAA, 0x5555_5555] {
        there_and_back(v, 32);
    }
    for v in [0u64, u64::MAX, 0xAAAA_AAAA_AAAA_AAAA, 0x5555_5555_5555_5555] {
        there_and_back(v, 64);
    }
    for v in [0u128, u128::MAX, 0xAAAA_AAAA_AAAA_AAAA_AAAA_AAAA_AAAA_AAAA] {
        there_and_back(v, 128);
    }
    for v in [0usize, usize::MAX, 0x5555_5555] {
        there_and_back(v, usize::BITS as usize);
    }
    for v in [0i8, -1, i8::MIN, 0x55] {
        there_and_back(v, 8);
    }
    for v in [0i16, -1, i16::MIN, 0x5555] {
        there_and_back(v, 16);
    }
    for v in [0i32, -1, i32::MIN, 0x5555_5555] {
        there_and_back(v, 32);
    }
    for v in [0i64, -1, i64::MIN, 0x5555_5555_5555_5555] {
        there_and_back(v, 64);
    }
    for v in [0i128, -1, i128::MIN, 0x5555_5555_5555_5555_5555_5555_5555_5555] {
        there_and_back(v, 128);
    }
    for v in [0isize, -1, isize::MIN, 0x5555_5555] {
        there_and_back(v, usize::BITS as usize);
    }
}

#[test]
fn packet_round_trip_with_many_flags() {
    let last = vec![true, false, false, true, true, false, true, false, true];
    let bin = TydiPacket { data: Some(0x1234_5678u32), last: last.clone() }.to_binary(32);
    assert_eq!(bin.len, 1 + 9 + 32);
    let back: TydiPacket<u32> = TydiPacket::from_binary(bin, 9);
    assert_eq!(back, TydiPacket { data: Some(0x1234_5678), last });
}

#[test]
fn packet_with_seven_flags_ends_on_a_byte_border() {
    let last = vec![false, true, false, true, false, true, true];
    let bin = TydiPacket { data: Some(0xC3u8), last: last.clone() }.to_binary(8);
    assert_eq!(bin.len, 16);
    assert_eq!(bin.data, vec![0b1101_0101, 0xC3]);
    let back: TydiPacket<u8> = TydiPacket::from_binary(bin, 7);
    assert_eq!(back, TydiPacket { data: Some(0xC3), last });
}

#[test]
fn encode_packet_refuses_another_width() {
    let payload = TydiBinary::from(7u16);
    assert_eq!(encode_packet(Some(payload), vec![true], 8), Err(TydiError::PayloadWidthMismatch));
    let payload = TydiBinary::from(7u16);
    let bin = encode_packet(Some(payload), vec![true], 16).unwrap();
    assert_eq!(bin, TydiPacket { data: Some(7u16), last: vec![true] }.to_binary(16));
    let empty = encode_packet(None, vec![false], 4).unwrap();
    assert_eq!(empty, TydiBinary { data: vec![0], len: 6 });
    let broken = TydiBinary { data: vec![], len: 16 };
    assert_eq!(encode_packet(Some(broken), vec![true], 16), Err(TydiError::InvalidLength));
}

#[test]
fn map_data_keeps_the_flags() {
    let packet = TydiPacket { data: Some(20u32), last: vec![false, true] };
    let mapped = packet.map_data(|x| x + 1);
    assert_eq!(mapped, TydiPacket { data: Some(21u32), last: vec![false, true] });
    let none: TydiPacket<u32> = TydiPacket { data: None, last: vec![true] };
    let mapped = none.map_data(|x| x.to_string());
    assert_eq!(mapped, TydiPacket { data: None, last: vec![true] });
}

#[test]
fn packet_clone_is_equal() {
    let packet = TydiPacket { data: Some(String::from("a")), last: vec![true, false] };
    assert_eq!(packet.clone(), packet);
}

#[test]
fn stream_wraps_packets() {
    let stream = TydiStream(vec![TydiPacket { data: Some(1u8), last: vec![true] }]);
    assert_eq!(stream.0.len(), 1);
}

#[test]
fn tydi_vec_new_and_push() {
    let mut v: TydiVec<u8> = TydiVec::new(2);
    assert!(v.data.is_empty());
    assert_eq!(v.d, 2);
    v.push(Some(5), vec![false, true]);
    v.push(None, vec![true, true]);
    assert_eq!(
        v.data,
        vec![
            TydiPacket { data: Some(5), last: vec![false, true] },
            TydiPacket { data: None, last: vec![true, true] },
        ]
    );
    assert_eq!(v.d, 2);
}

#[test]
fn tydi_vec_from_text() {
    let v = TydiVec::from("ab");
    assert_eq!(
        v.data,
        vec![
            TydiPacket { data: Some(b'a'), last: vec![false] },
            TydiPacket { data: Some(b'b'), last: vec![true] },
        ]
    );
    let e = TydiVec::from("");
    assert_eq!(e.data, vec![TydiPacket { data: None, last: vec![true] }]);
}

#[test]
fn tydi_vec_from_items() {
    let v = TydiVec::from(vec![10u16, 20, 30]);
    assert_eq!(
        v.data,
        vec![
            TydiPacket { data: Some(10), last: vec![false] },
            TydiPacket { data: Some(20), last: vec![false] },
            TydiPacket { data: Some(30), last: vec![true] },
        ]
    );
    let e: TydiVec<u16> = TydiVec::from(Vec::<u16>::new());
    assert_eq!(e.data, vec![TydiPacket { data: None, last: vec![true] }]);
}

#[test]
fn tydi_vec_from_sequences() {
    let v: TydiVec<u8> = TydiVec::from(vec![TydiVec::from("ab"), TydiVec::from(""), TydiVec::from("c")]);
    assert_eq!(
        v.data,
        vec![
            TydiPacket { data: Some(b'a'), last: vec![false, false] },
            TydiPacket { data: Some(b'b'), last: vec![true, false] },
            TydiPacket { data: None, last: vec![true, false] },
            TydiPacket { data: Some(b'c'), last: vec![true, true] },
        ]
    );
    let e: TydiVec<u8> = TydiVec::from(Vec::<TydiVec<u8>>::new());
    assert_eq!(e.data, vec![TydiPacket { data: None, last: vec![true, true] }]);
}
