use relnet::fragment::{
    decode_fragment, encode_fragment, fragment, Assembly, Fragment, FragmentError,
    FRAGMENT_OVERHEAD, MAX_FRAGMENT_COUNT, MAX_FRAGMENT_DATA,
};
use relnet::header::DatagramId;
use relnet::messages::MAX_DATAGRAM_SIZE;

fn sample_payload(len: usize) -> Vec<u8> {
    let mut v = Vec::with_capacity(len);
    for i in 0..len {
        v.push((i % 251) as u8);
    }
    v
}

#[test]
fn fragment_sizes_and_positions() {
    let msg = DatagramId::try_from_u32(5).unwrap();
    let payload = sample_payload(2 * MAX_FRAGMENT_DATA + 10);
    let frags = fragment(msg, &payload).unwrap();
    assert_eq!(frags.len(), 3);
    for (i, f) in frags.iter().enumerate() {
        assert_eq!(f.index as usize, i);
        assert_eq!(f.total, 3);
        assert_eq!(f.message.to_u32(), 5);
        assert!(f.data.len() <= MAX_FRAGMENT_DATA);
    }
    assert_eq!(frags[0].data.len(), MAX_FRAGMENT_DATA);
    assert_eq!(frags[1].data.len(), MAX_FRAGMENT_DATA);
    assert_eq!(frags[2].data.len(), 10);
}

#[test]
fn fragment_roundtrip_any_order() {
    // A payload larger than the maximum datagram size, fed back in a
    // scrambled order, reassembles byte-identically.
    let msg = DatagramId::try_from_u32(6).unwrap();
    let payload = sample_payload(2 * MAX_DATAGRAM_SIZE + 500);
    let frags = fragment(msg, &payload).unwrap();
    assert!(frags.len() >= 3);

    let mut rebuild = Assembly::new();
    let n = frags.len();
    let mut result = None;
    // Feed the fragments out of order: the last one first, then the rest
    // back to front.
    let mut order: Vec<usize> = vec![n - 1];
    for k in (0..n - 1).rev() {
        order.push(k);
    }
    let mut fed = 0;
    for idx in order {
        let f = &frags[idx];
        let again = Fragment {
            message: f.message,
            index: f.index,
            total: f.total,
            data: f.data.clone(),
        };
        fed += 1;
        match rebuild.reassemble(again).unwrap() {
            Some(v) => {
                assert_eq!(fed, n);
                result = Some(v);
            }
            None => assert!(fed < n),
        }
    }
    assert_eq!(result.unwrap(), payload);
}

#[test]
fn fragment_empty_message_travels_as_one() {
    let msg = DatagramId::try_from_u32(8).unwrap();
    let frags = fragment(msg, &Vec::new()).unwrap();
    assert_eq!(frags.len(), 1);
    assert_eq!(frags[0].data.len(), 0);
    let mut rebuild = Assembly::new();
    let v = rebuild
        .reassemble(Fragment { message: msg, index: 0, total: 1, data: Vec::new() })
        .unwrap()
        .unwrap();
    assert_eq!(v.len(), 0);
}

#[test]
fn reassemble_ignores_duplicates() {
    let msg = DatagramId::try_from_u32(9).unwrap();
    let payload = sample_payload(MAX_FRAGMENT_DATA + 5);
    let frags = fragment(msg, &payload).unwrap();
    assert_eq!(frags.len(), 2);
    let mut rebuild = Assembly::new();
    let f0 = Fragment {
        message: msg,
        index: 0,
        total: 2,
        data: frags[0].data.clone(),
    };
    let f0_again = Fragment {
        message: msg,
        index: 0,
        total: 2,
        data: frags[0].data.clone(),
    };
    let f1 = Fragment {
        message: msg,
        index: 1,
        total: 2,
        data: frags[1].data.clone(),
    };
    assert_eq!(rebuild.reassemble(f0).unwrap(), None);
    assert_eq!(rebuild.reassemble(f0_again).unwrap(), None);
    let v = rebuild.reassemble(f1).unwrap().unwrap();
    assert_eq!(v, payload);
}

#[test]
fn reassemble_rejects_inconsistent_fragments() {
    let msg = DatagramId::try_from_u32(10).unwrap();
    let mut rebuild = Assembly::new();
    assert_eq!(
        rebuild.reassemble(Fragment { message: msg, index: 2, total: 2, data: vec![1] }),
        Err(FragmentError::BadFragment)
    );
    assert_eq!(
        rebuild.reassemble(Fragment { message: msg, index: 0, total: 0, data: vec![1] }),
        Err(FragmentError::BadFragment)
    );
    assert_eq!(
        rebuild.reassemble(Fragment { message: msg, index: 0, total: 3, data: vec![1] }).unwrap(),
        None
    );
    assert_eq!(
        rebuild.reassemble(Fragment { message: msg, index: 1, total: 4, data: vec![2] }),
        Err(FragmentError::TotalMismatch)
    );
}

#[test]
fn fragment_wire_roundtrip() {
    let f = Fragment {
        message: DatagramId::try_from_u32(1042).unwrap(),
        index: 258,
        total: 770,
        data: vec![5, 6, 7],
    };
    let wire = encode_fragment(&f);
    assert_eq!(wire, vec![0u8, 4, 18, 1, 2, 3, 2, 5, 6, 7]);
    assert_eq!(wire.len(), f.data.len() + FRAGMENT_OVERHEAD);
    let g = decode_fragment(&wire).unwrap();
    assert_eq!(g.message.to_u32(), 1042);
    assert_eq!(g.index, 258);
    assert_eq!(g.total, 770);
    assert_eq!(g.data, vec![5, 6, 7]);
}

#[test]
fn fragment_wire_rejects_truncated_payload() {
    assert!(matches!(
        decode_fragment(&vec![0u8, 0, 1, 0, 0, 0]),
        Err(FragmentError::Truncated)
    ));
    assert!(decode_fragment(&vec![0u8, 0, 1, 0, 0, 0, 1]).is_ok());
}

#[test]
fn fragment_rejects_uncountable_payload() {
    let msg = DatagramId::try_from_u32(11).unwrap();
    let too_big = vec![0u8; MAX_FRAGMENT_DATA * MAX_FRAGMENT_COUNT + 1];
    match fragment(msg, &too_big) {
        Err(FragmentError::TooLarge) => {}
        _ => panic!("oversized payload must be rejected"),
    }
    let just_fits = vec![0u8; MAX_FRAGMENT_DATA * 3];
    assert_eq!(fragment(msg, &just_fits).unwrap().len(), 3);
}
