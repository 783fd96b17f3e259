use atelier_loader::data::HandleAllocator;
use atelier_loader::fault::{Failure, Fault};
use atelier_loader::ids::{asset_key, make_array, same_id, LoadHandle};
use atelier_loader::requests::{process_pending_requests, PollState, ResponsePromise};
use atelier_loader::responses::{read_id, read_ids, DecodeError};
use atelier_loader::state::{AssetLoadResult, AssetLoadState, LoadState};

#[test]
fn arrays_are_copied() {
    let bytes: Vec<u8> = (0..16).collect();
    let id = make_array(&bytes);
    assert_eq!(id.to_vec(), bytes);
    assert!(same_id(&id, &id));
    let mut other = id;
    other[15] = 0;
    assert!(!same_id(&id, &other));
    assert_eq!(asset_key(&id), 0x0f0e0d0c0b0a09080706050403020100);
    assert_ne!(asset_key(&id), asset_key(&other));
}

#[test]
fn identifiers_are_read() {
    assert_eq!(read_id(&Ok(vec![3; 16])).unwrap(), [3; 16]);
    assert!(matches!(read_id(&Err(DecodeError)), Err(Failure::Malformed)));
    assert!(matches!(
        read_id(&Ok(vec![3; 3])),
        Err(Failure::Fault(Fault::IdLength))
    ));
    assert_eq!(read_ids(&Vec::new()).unwrap().len(), 0);
    assert_eq!(
        read_ids(&vec![Ok(vec![1; 16]), Ok(vec![2; 16])]).unwrap(),
        vec![[1; 16], [2; 16]]
    );
    // the first part that cannot be used decides
    assert!(matches!(
        read_ids(&vec![Ok(vec![1; 16]), Err(DecodeError), Ok(vec![])]),
        Err(Failure::Malformed)
    ));
    assert!(matches!(
        read_ids(&vec![Ok(vec![1; 16]), Ok(vec![]), Err(DecodeError)]),
        Err(Failure::Fault(Fault::IdLength))
    ));
}

#[test]
fn handles_wrap_around() {
    let mut allocator = HandleAllocator::new(u64::MAX);
    assert_eq!(allocator.allocate(), LoadHandle(u64::MAX));
    assert_eq!(allocator.allocate(), LoadHandle(0));
    assert_eq!(allocator.allocate(), LoadHandle(1));
}

#[test]
fn sub_states_are_mapped() {
    let f = |s| {
        assert_eq!(s, AssetLoadState::WaitingForData);
        AssetLoadState::RequestingData
    };
    assert_eq!(
        LoadState::LoadingAsset(AssetLoadState::WaitingForData).map_asset_load_state(f),
        LoadState::LoadingAsset(AssetLoadState::RequestingData)
    );
    assert_eq!(
        LoadState::Loaded(AssetLoadState::WaitingForData).map_asset_load_state(f),
        LoadState::Loaded(AssetLoadState::RequestingData)
    );
    assert_eq!(LoadState::Unloading.asset_load_state(), None);
}

#[test]
fn results_from_states_change_nothing_else() {
    let result = AssetLoadResult::from_state(LoadState::Unloading);
    assert_eq!(result.new_state, LoadState::Unloading);
    assert_eq!(result.new_version, None);
    assert_eq!(result.asset_type, None);
}

fn request(name: &'static str, response: PollState<u32>) -> ResponsePromise<(), u32, &'static str> {
    ResponsePromise {
        promise: (),
        response,
        user_data: name,
    }
}

#[test]
fn settled_requests_are_taken_out_from_the_end() {
    let mut requests = vec![
        request("a", PollState::Ready(1)),
        request("b", PollState::NotReady),
        request("c", PollState::Failed),
        request("d", PollState::NotReady),
        request("e", PollState::NotReady),
    ];
    let settled = process_pending_requests(&mut requests);
    assert_eq!(settled, vec![(None, "c"), (Some(1), "a")]);
    let left: Vec<&str> = requests.iter().map(|r| r.user_data).collect();
    // "e" takes the place of "c", then "d" that of "a"
    assert_eq!(left, vec!["d", "b", "e"]);
    assert!(process_pending_requests(&mut requests).is_empty());
    assert_eq!(requests.len(), 3);
}
