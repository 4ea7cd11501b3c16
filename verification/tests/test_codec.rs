use epaxos::codec::{
    decode_ballot, decode_command, decode_id_vec, decode_instance, decode_instance_id,
    encode_ballot, encode_command, encode_id_vec, encode_instance, encode_instance_id,
};
use epaxos::qpaxos::{BallotNum, Command, Instance, InstanceId, InstanceIdVec, OP_GET, OP_SET};
use epaxos::wire::{decode_fields, encode_fields, WireField, WireVal};

#[test]
fn test_instance_id_bytes() {
    // field 1 = 1, field 2 = 2, each a key byte then a varint
    let b = encode_instance_id(&InstanceId::new(1, 2));
    assert_eq!(vec![0x08, 0x01, 0x10, 0x02], b);
    assert_eq!(InstanceId::new(1, 2), decode_instance_id(&b).unwrap());

    // zero fields are left out
    assert_eq!(vec![0x08, 0x01], encode_instance_id(&InstanceId::new(1, 0)));
    assert_eq!(Vec::<u8>::new(), encode_instance_id(&InstanceId::new(0, 0)));
    assert_eq!(InstanceId::new(0, 0), decode_instance_id(&[]).unwrap());

    // a negative index takes ten bytes
    let b = encode_instance_id(&InstanceId::new(0, -1));
    assert_eq!(
        vec![0x10, 0xff, 0xff, 0xff, 0xff, 0xff, 0xff, 0xff, 0xff, 0xff, 0x01],
        b
    );
    assert_eq!(InstanceId::new(0, -1), decode_instance_id(&b).unwrap());

    // a value above 127 takes two bytes
    assert_eq!(vec![0x08, 0xac, 0x02], encode_instance_id(&InstanceId::new(300, 0)));
}

#[test]
fn test_decode_reads_prost_layout() {
    // the last occurrence of a field wins
    assert_eq!(
        InstanceId::new(7, 0),
        decode_instance_id(&[0x08, 0x01, 0x08, 0x07]).unwrap()
    );
    // unknown fields are passed over, of every wire type
    assert_eq!(
        InstanceId::new(5, 0),
        decode_instance_id(&[0x1d, 1, 2, 3, 4, 0x08, 0x05]).unwrap()
    );
    assert_eq!(
        InstanceId::new(5, 0),
        decode_instance_id(&[0x1a, 0x02, 0xaa, 0xbb, 0x08, 0x05]).unwrap()
    );
    assert_eq!(
        InstanceId::new(5, 0),
        decode_instance_id(&[0x19, 1, 2, 3, 4, 5, 6, 7, 8, 0x08, 0x05]).unwrap()
    );
    assert_eq!(
        InstanceId::new(5, 0),
        decode_instance_id(&[0x1b, 0x08, 0x01, 0x1c, 0x08, 0x05]).unwrap()
    );
    // an end key with no group open is an error, and so is a short value
    assert!(decode_instance_id(&[0x1c]).is_err());
    assert!(decode_instance_id(&[0x19, 1, 2, 3]).is_err());
    // a known field of the wrong wire type is an error
    assert!(decode_instance_id(&[0x0a, 0x00]).is_err());
    assert!(decode_instance_id(&[0x0d, 0x00, 0x00, 0x00, 0x00]).is_err());
    assert!(decode_instance_id(&[0x11, 0, 0, 0, 0, 0, 0, 0, 0]).is_err());
    assert!(decode_instance(&[0x0d, 0x00, 0x00, 0x00, 0x00]).is_err());
    assert!(decode_instance(&[0x38, 0x01, 0x3d, 0x00, 0x00, 0x00, 0x00]).is_err());
    assert!(decode_command(&[0x15, 0x00, 0x00, 0x00, 0x00]).is_err());
    // an unknown field of a fixed-width wire type is passed over
    assert_eq!(
        Instance::empty(),
        decode_instance(&[0x4d, 0x00, 0x00, 0x00, 0x00]).unwrap()
    );
    // a wire type above 5 is an error
    assert!(decode_instance_id(&[0x0e]).is_err());
    // a truncated varint is an error
    assert!(decode_instance_id(&[0x08, 0x80]).is_err());
    // a tenth byte's bits past the 64th are dropped
    let ten = [0x08, 0xff, 0xff, 0xff, 0xff, 0xff, 0xff, 0xff, 0xff, 0xff, 0x7f];
    assert_eq!(InstanceId::new(-1, 0), decode_instance_id(&ten).unwrap());
    // a varint longer than ten bytes is an error
    let eleven = [0x08, 0x80, 0x80, 0x80, 0x80, 0x80, 0x80, 0x80, 0x80, 0x80, 0x80, 0x00];
    assert!(decode_instance_id(&eleven).is_err());
    // a length past the end is an error
    assert!(decode_command(&[0x12, 0x05, 0x61]).is_err());
}

#[test]
fn test_wire_fields() {
    let fs = vec![
        WireField { tag: 3, val: WireVal::Varint(150) },
        WireField { tag: 2, val: WireVal::Bytes(b"ab".to_vec()) },
    ];
    let b = encode_fields(&fs);
    assert_eq!(vec![0x18, 0x96, 0x01, 0x12, 0x02, 0x61, 0x62], b);
    let back = decode_fields(&b).unwrap();
    assert_eq!(2, back.len());
    assert_eq!(3, back[0].tag);
    match &back[0].val {
        WireVal::Varint(v) => assert_eq!(150, *v),
        _ => panic!("expected a varint"),
    }
    match &back[1].val {
        WireVal::Bytes(v) => assert_eq!(b"ab".to_vec(), *v),
        _ => panic!("expected bytes"),
    }
}

#[test]
fn test_ballot_and_command_round_trip() {
    let b = BallotNum::new(-3, 4, 5);
    let bs = encode_ballot(&b);
    assert_eq!(b, decode_ballot(&bs).unwrap());

    let c = Command::new(OP_SET, b"x", b"1");
    let cs = encode_command(&c);
    assert_eq!(vec![0x08, 0x02, 0x12, 0x01, b'x', 0x1a, 0x01, b'1'], cs);
    assert_eq!(c, decode_command(&cs).unwrap());

    let ids = InstanceIdVec::new(vec![InstanceId::new(1, 2), InstanceId::new(0, 0)]);
    let vs = encode_id_vec(&ids);
    assert_eq!(vec![0x0a, 0x04, 0x08, 0x01, 0x10, 0x02, 0x0a, 0x00], vs);
    assert_eq!(ids, decode_id_vec(&vs).unwrap());
}

#[test]
fn test_instance_round_trip() {
    let mut inst = Instance::empty();
    inst.ballot = Some(BallotNum::new(1, 2, 3));
    inst.instance_id = Some(InstanceId::new(0, 3));
    inst.cmds = vec![Command::new(OP_SET, b"k", b"value"), Command::new(OP_GET, b"k", b"")];
    inst.initial_deps = Some(InstanceIdVec::new(vec![InstanceId::new(0, 0)]));
    inst.deps = Some(InstanceIdVec::new(vec![InstanceId::new(0, 0), InstanceId::new(1, -1)]));
    inst.final_deps = Some(InstanceIdVec::new(vec![]));
    inst.committed = true;
    let b = encode_instance(&inst);
    assert_eq!(inst, decode_instance(&b).unwrap());

    // an empty instance encodes to nothing
    assert_eq!(Vec::<u8>::new(), encode_instance(&Instance::empty()));
    assert_eq!(Instance::empty(), decode_instance(&[]).unwrap());

    // occurrences of a message field are merged
    let two = [0x12, 0x02, 0x08, 0x04, 0x12, 0x02, 0x10, 0x06];
    assert_eq!(
        Some(InstanceId::new(4, 6)),
        decode_instance(&two).unwrap().instance_id
    );
    // each occurrence is read within its own length: a field cut in two
    // across occurrences is an error
    let cut = [0x12, 0x01, 0x08, 0x12, 0x01, 0x04];
    assert!(decode_instance(&cut).is_err());
    let cut_ballot = [0x0a, 0x01, 0x08, 0x0a, 0x01, 0x05];
    assert!(decode_instance(&cut_ballot).is_err());
}

#[test]
fn test_skipped_field_is_kept_with_its_tag() {
    let back = decode_fields(&[0x1d, 1, 2, 3, 4, 0x08, 0x05]).unwrap();
    assert_eq!(2, back.len());
    assert_eq!(3, back[0].tag);
    assert!(matches!(back[0].val, WireVal::Skipped));
    assert_eq!(1, back[1].tag);
    assert!(matches!(back[1].val, WireVal::Varint(5)));
}
