use atelier_loader::assets::{load_data, result_of_update};
use atelier_loader::changes::AssetChanges;
use atelier_loader::channel::{AssetLoadOp, HandleOp};
use atelier_loader::fault::{Failure, Fault};
use atelier_loader::ids::{AssetTypeId, AssetUuid, LoadHandle};
use atelier_loader::requests::{PollState, ResponsePromise};
use atelier_loader::responses::{
    Artifact, AssetRecord, DataResponse, DecodeError, MetadataResponse, SerializedAsset,
};
use atelier_loader::rpc_loader::{ConnectionState, RpcAction, RpcEvent, RpcLoader};
use atelier_loader::state::{self, AssetLoad, AssetLoadState, LoadStatus};
use atelier_loader::storage::{AssetStorage, LoaderInfoProvider, StorageError, TracedStorage};
use std::cell::{Cell, RefCell};
use std::collections::HashMap;
use std::sync::RwLock;

// ----- an asset storage

#[derive(Debug)]
struct LoadState {
    size: Option<usize>,
    commit_version: Option<u32>,
    load_version: Option<u32>,
}

#[derive(Copy, Clone, PartialEq, Debug)]
enum Behaviour {
    Complete,
    Fail,
    Forget,
    Keep,
}

struct Storage {
    map: RwLock<HashMap<LoadHandle, LoadState>>,
    behaviour: Cell<Behaviour>,
    reject: Cell<bool>,
    kept: RefCell<Vec<AssetLoadOp>>,
    log: RefCell<Vec<String>>,
}

impl Storage {
    fn new() -> Storage {
        Storage {
            map: RwLock::new(HashMap::new()),
            behaviour: Cell::new(Behaviour::Complete),
            reject: Cell::new(false),
            kept: RefCell::new(Vec::new()),
            log: RefCell::new(Vec::new()),
        }
    }
    fn take_log(&self) -> Vec<String> {
        self.log.borrow_mut().drain(..).collect()
    }
}

impl AssetStorage for Storage {
    fn update_asset(
        &self,
        loader_info: &dyn LoaderInfoProvider,
        asset_type: &AssetTypeId,
        data: &[u8],
        load_handle: LoadHandle,
        load_op: AssetLoadOp,
        version: u32,
    ) -> Result<(), StorageError> {
        let id = loader_info
            .get_asset_id(load_handle)
            .expect("the load exists");
        assert_eq!(loader_info.get_load_handle(id), Some(load_handle));
        self.log.borrow_mut().push(format!(
            "update {} type {} size {} version {}",
            load_handle.0,
            asset_type[0],
            data.len(),
            version
        ));
        if self.reject.get() {
            // the operation is not part of what was taken
            self.kept.borrow_mut().push(load_op);
            return Err(StorageError {
                reason: "full".to_string(),
            });
        }
        let mut map = self.map.write().unwrap();
        let state = map.entry(load_handle).or_insert(LoadState {
            size: None,
            commit_version: None,
            load_version: None,
        });

        state.size = Some(data.len());
        state.load_version = Some(version);
        match self.behaviour.get() {
            Behaviour::Complete => {
                load_op.complete();
            }
            Behaviour::Fail => {
                load_op.error("broken".to_string());
            }
            Behaviour::Forget => drop(load_op),
            Behaviour::Keep => self.kept.borrow_mut().push(load_op),
        }
        Ok(())
    }
    fn commit_asset_version(
        &self,
        asset_type: &AssetTypeId,
        load_handle: LoadHandle,
        version: u32,
    ) {
        self.log.borrow_mut().push(format!(
            "commit {} type {} version {}",
            load_handle.0, asset_type[0], version
        ));
        let mut map = self.map.write().unwrap();
        let state = map.get_mut(&load_handle).unwrap();

        assert!(state.load_version.unwrap() == version);
        state.commit_version = Some(version);
        state.load_version = None;
    }
    fn free(&self, asset_type: &AssetTypeId, load_handle: LoadHandle) {
        self.log
            .borrow_mut()
            .push(format!("free {} type {}", load_handle.0, asset_type[0]));
        self.map.write().unwrap().remove(&load_handle);
    }
}

// ----- a daemon

struct DaemonAsset {
    load_deps: Vec<AssetUuid>,
    type_uuid: Vec<u8>,
    data: Vec<u8>,
}

struct Daemon {
    connection: ConnectionState,
    address: Option<String>,
    assets: HashMap<AssetUuid, DaemonAsset>,
    changes: Option<AssetChanges>,
    change_checks: usize,
    metadata_requests: Vec<Vec<AssetUuid>>,
    data_requests: Vec<AssetUuid>,
    silent: bool,
    failing: bool,
    empty: bool,
}

type Loader = RpcLoader<AssetUuid, Vec<AssetUuid>>;

impl Daemon {
    fn new() -> Daemon {
        Daemon {
            connection: ConnectionState::Unconnected,
            address: None,
            assets: HashMap::new(),
            changes: None,
            change_checks: 0,
            metadata_requests: Vec::new(),
            data_requests: Vec::new(),
            silent: false,
            failing: false,
            empty: false,
        }
    }
    fn add(&mut self, id: AssetUuid, load_deps: Vec<AssetUuid>, data: &[u8]) {
        self.assets.insert(
            id,
            DaemonAsset {
                load_deps,
                type_uuid: vec![7; 16],
                data: data.to_vec(),
            },
        );
    }
    fn metadata(&self, ids: &[AssetUuid]) -> PollState<MetadataResponse> {
        if self.silent {
            return PollState::NotReady;
        }
        if self.failing {
            return PollState::Failed;
        }
        let mut seen: Vec<AssetUuid> = Vec::new();
        let mut todo: Vec<AssetUuid> = ids.to_vec();
        let mut records = Vec::new();
        while let Some(id) = todo.pop() {
            if seen.contains(&id) {
                continue;
            }
            seen.push(id);
            if let Some(asset) = self.assets.get(&id) {
                records.push(record(id, &asset.load_deps));
                todo.extend(asset.load_deps.iter().cloned());
            }
        }
        PollState::Ready(MetadataResponse {
            assets: Ok(records),
        })
    }
    fn data(&self, id: &AssetUuid) -> PollState<DataResponse> {
        if self.silent {
            return PollState::NotReady;
        }
        if self.failing {
            return PollState::Failed;
        }
        if self.empty {
            return PollState::Ready(DataResponse {
                artifacts: Ok(Vec::new()),
            });
        }
        let asset = &self.assets[id];
        PollState::Ready(data_response(&asset.type_uuid, &asset.data))
    }
}

fn changed(changed: Vec<AssetUuid>) -> AssetChanges {
    AssetChanges {
        changed,
        deleted: Vec::new(),
    }
}

fn record(id: AssetUuid, load_deps: &[AssetUuid]) -> AssetRecord {
    AssetRecord {
        id: Ok(id.to_vec()),
        load_deps: Ok(load_deps.iter().map(|dep| Ok(dep.to_vec())).collect()),
    }
}

fn data_response(type_uuid: &[u8], data: &[u8]) -> DataResponse {
    DataResponse {
        artifacts: Ok(vec![Artifact {
            data: Ok(SerializedAsset {
                type_uuid: Ok(type_uuid.to_vec()),
                data: Ok(data.to_vec()),
            }),
        }]),
    }
}

/// Runs one round.
fn process(loader: &mut Loader, daemon: &mut Daemon, storage: &Storage) -> Result<(), Fault> {
    let mut traced = TracedStorage::new(storage);
    let mut event = RpcEvent::Begun(daemon.connection);
    loop {
        event = match loader.process(event, &mut traced)? {
            RpcAction::Poll { connect } => {
                if connect {
                    daemon.address = Some(loader.connect_string.clone());
                    daemon.connection = ConnectionState::Connected;
                }
                RpcEvent::Polled
            }
            RpcAction::CheckChanges => {
                daemon.change_checks += 1;
                RpcEvent::ChangesChecked(daemon.changes.take())
            }
            RpcAction::PollMetadata => {
                for request in loader.requests.pending_metadata_requests.iter_mut() {
                    request.response = daemon.metadata(&request.promise);
                }
                RpcEvent::MetadataPolled(daemon.connection)
            }
            RpcAction::RequestMetadata(list) => {
                let ids: Vec<AssetUuid> = list.iter().map(|(id, _)| *id).collect();
                daemon.metadata_requests.push(ids.clone());
                RpcEvent::MetadataRequested(ResponsePromise::new(ids, list))
            }
            RpcAction::PollData => {
                for request in loader.requests.pending_data_requests.iter_mut() {
                    request.response = daemon.data(&request.promise);
                }
                RpcEvent::DataPolled(daemon.connection)
            }
            RpcAction::RequestData(list) => {
                let mut requests = Vec::new();
                for (id, handle) in list {
                    daemon.data_requests.push(id);
                    requests.push(ResponsePromise::new(id, handle));
                }
                RpcEvent::DataRequested(requests)
            }
            RpcAction::Finish => return Ok(()),
        };
    }
}

fn wait_for_status(
    status: LoadStatus,
    handle: LoadHandle,
    loader: &mut Loader,
    daemon: &mut Daemon,
    storage: &Storage,
) {
    for _ in 0..100 {
        if status == loader.get_load_status(handle) {
            return;
        }
        process(loader, daemon, storage).expect("the round goes through");
    }
    panic!("status {:?} was not reached", status);
}

fn uuid_of(s: &str) -> AssetUuid {
    *uuid::Uuid::parse_str(s).unwrap().as_bytes()
}

fn id(n: u8) -> AssetUuid {
    [n; 16]
}

fn spawn_daemon(daemon_address: &str) -> Daemon {
    assert!(daemon_address.starts_with("127.0.0.1:"));
    let mut daemon = Daemon::new();
    daemon.add(
        uuid_of("60352042-616f-460e-abd2-546195c060fe"),
        Vec::new(),
        b"asset.txt",
    );
    let ids: Vec<AssetUuid> = asset_tree().iter().map(|(id, _)| *id).collect();
    daemon.add(ids[0], vec![ids[1], ids[2]], b"asset_a.txt");
    daemon.add(ids[1], vec![ids[3]], b"asset_b.txt");
    daemon.add(ids[2], vec![ids[3]], b"asset_c.txt");
    daemon.add(ids[3], Vec::new(), b"asset_d.txt");
    daemon
}

fn asset_tree() -> Vec<(AssetUuid, &'static str)> {
    [
        ("a5ce4da0-675e-4460-be02-c8b145c2ee49", "asset_a.txt"),
        ("039dc5f8-ee1c-4949-a7df-72383f12c7a2", "asset_b.txt"),
        ("c071f3ff-c9ea-4bf5-b3b9-bf5fc29f9b59", "asset_c.txt"),
        ("55adb689-b91c-42a0-941b-de4a9f7f4f03", "asset_d.txt"),
    ]
    .iter()
    .map(|(id, file_name)| (uuid_of(id), *file_name))
    .collect()
}

#[test]
fn test_connect() {
    let daemon_port = 2500;
    let daemon_address = format!("127.0.0.1:{}", daemon_port);
    let mut daemon = spawn_daemon(&daemon_address);

    let mut loader = Loader::new(daemon_address.clone());
    let handle = loader.add_ref(
        // asset uuid of "tests/assets/asset.txt"
        uuid_of("60352042-616f-460e-abd2-546195c060fe"),
    );
    let storage = Storage::new();
    wait_for_status(LoadStatus::Loaded, handle, &mut loader, &mut daemon, &storage);
    assert_eq!(daemon.address, Some(daemon_address));
    loader.remove_ref(handle);
    wait_for_status(
        LoadStatus::NotRequested,
        handle,
        &mut loader,
        &mut daemon,
        &storage,
    );
}

#[test]
fn test_load_with_dependencies() {
    let daemon_port = 2505;
    let daemon_address = format!("127.0.0.1:{}", daemon_port);
    let mut daemon = spawn_daemon(&daemon_address);

    let mut loader = Loader::new(daemon_address);
    let handle = loader.add_ref(
        // asset uuid of "tests/assets/asset_a.txt"
        uuid_of("a5ce4da0-675e-4460-be02-c8b145c2ee49"),
    );
    let storage = Storage::new();
    wait_for_status(LoadStatus::Loaded, handle, &mut loader, &mut daemon, &storage);

    // Check that dependent assets are loaded
    let asset_handles = asset_tree()
        .iter()
        .map(|(asset_uuid, file_name)| {
            let asset_load_handle = loader
                .get_load(*asset_uuid)
                .unwrap_or_else(|| panic!("Expected `{}` to be loaded.", file_name));

            (asset_load_handle, *file_name)
        })
        .collect::<Vec<(LoadHandle, &'static str)>>();

    asset_handles
        .iter()
        .for_each(|(asset_load_handle, file_name)| {
            assert_eq!(
                std::mem::discriminant(&LoadStatus::Loaded),
                std::mem::discriminant(&loader.get_load_status(*asset_load_handle)),
                "Expected `{}` to be loaded.",
                file_name
            );
        });

    // Remove reference to top level asset.
    loader.remove_ref(handle);
    wait_for_status(
        LoadStatus::NotRequested,
        handle,
        &mut loader,
        &mut daemon,
        &storage,
    );

    // Remove ref when unloading top level asset.
    asset_handles
        .iter()
        .for_each(|(asset_load_handle, file_name)| {
            println!("Waiting for {} to be `NotRequested`.", file_name);
            wait_for_status(
                LoadStatus::NotRequested,
                *asset_load_handle,
                &mut loader,
                &mut daemon,
                &storage,
            );
        });
    assert!(storage.map.read().unwrap().is_empty());
}

// ----- references

#[test]
fn references_share_a_handle() {
    let mut loader = Loader::default();
    assert_eq!(loader.connect_string, "127.0.0.1:9999");
    let a = loader.add_ref(id(1));
    let b = loader.add_ref(id(2));
    assert_eq!(a, LoadHandle(1));
    assert_eq!(b, LoadHandle(2));
    assert_eq!(loader.add_ref(id(1)), a);
    assert_eq!(loader.get_load(id(1)), Some(a));
    assert_eq!(loader.get_load(id(3)), None);
    let info = loader.get_load_info(a).unwrap();
    assert_eq!((info.asset_id, info.refs), (id(1), 2));
    loader.remove_ref(a);
    assert_eq!(loader.get_load_info(a).unwrap().refs, 1);
    assert!(loader.get_load_info(LoadHandle(9)).is_none());
    loader.remove_ref(LoadHandle(9));
    assert!(loader.get_load_info(LoadHandle(9)).is_none());
}

#[test]
fn removing_too_often_wraps_around() {
    let mut loader = Loader::default();
    let a = loader.add_ref(id(1));
    loader.remove_ref(a);
    loader.remove_ref(a);
    assert_eq!(loader.get_load_info(a).unwrap().refs, u32::MAX);
    loader.add_ref(id(1));
    assert_eq!(loader.get_load_info(a).unwrap().refs, 0);
}

#[test]
fn dependencies_are_referenced_and_released() {
    let mut daemon = Daemon::new();
    daemon.add(id(1), vec![id(2), id(2)], b"top");
    daemon.add(id(2), Vec::new(), b"below");
    let mut loader = Loader::default();
    let storage = Storage::new();
    let below = loader.add_ref(id(2));
    let top = loader.add_ref(id(1));
    wait_for_status(LoadStatus::Loaded, top, &mut loader, &mut daemon, &storage);
    // named twice, referenced twice
    assert_eq!(loader.get_load_info(below).unwrap().refs, 3);
    loader.remove_ref(top);
    wait_for_status(
        LoadStatus::NotRequested,
        top,
        &mut loader,
        &mut daemon,
        &storage,
    );
    assert_eq!(loader.get_load_info(below).unwrap().refs, 1);
    assert_eq!(loader.get_load_status(below), LoadStatus::Loaded);
}

#[test]
fn retired_asset_stays_retired() {
    let mut daemon = Daemon::new();
    daemon.add(id(1), Vec::new(), b"x");
    let mut loader = Loader::default();
    let storage = Storage::new();
    let a = loader.add_ref(id(1));
    wait_for_status(LoadStatus::Loaded, a, &mut loader, &mut daemon, &storage);
    loader.remove_ref(a);
    wait_for_status(LoadStatus::NotRequested, a, &mut loader, &mut daemon, &storage);
    while loader.get_load_info(a).is_some() {
        process(&mut loader, &mut daemon, &storage).unwrap();
    }
    assert_eq!(loader.add_ref(id(1)), a);
    assert!(loader.get_load_info(a).is_none());
    assert_eq!(loader.get_load_status(a), LoadStatus::NotRequested);
    assert_eq!(loader.add_ref(id(2)), LoadHandle(2));
}

// ----- the life of a load

#[test]
fn life_of_a_load() {
    let mut daemon = Daemon::new();
    daemon.add(id(1), Vec::new(), b"abc");
    let mut loader = Loader::default();
    let storage = Storage::new();
    let a = loader.add_ref(id(1));
    assert_eq!(loader.get_load_status(a), LoadStatus::NotRequested);
    assert_eq!(loader.get_asset(a), None);

    // the load needs metadata, which is requested
    process(&mut loader, &mut daemon, &storage).unwrap();
    assert_eq!(loader.get_load_status(a), LoadStatus::Loading);
    assert_eq!(daemon.metadata_requests, vec![vec![id(1)]]);
    assert_eq!(loader.requests.pending_metadata_requests.len(), 1);
    // the metadata arrives
    process(&mut loader, &mut daemon, &storage).unwrap();
    assert!(loader.requests.pending_metadata_requests.is_empty());
    // the dependencies are referenced
    process(&mut loader, &mut daemon, &storage).unwrap();
    // the dependencies are there, data is requested
    assert!(daemon.data_requests.is_empty());
    process(&mut loader, &mut daemon, &storage).unwrap();
    assert_eq!(daemon.data_requests, vec![id(1)]);
    assert_eq!(loader.requests.pending_data_requests.len(), 1);
    // the data arrives
    process(&mut loader, &mut daemon, &storage).unwrap();
    assert!(loader.requests.pending_data_requests.is_empty());
    assert_eq!(storage.take_log(), vec!["update 1 type 7 size 3 version 1"]);
    assert_eq!(loader.get_load_status(a), LoadStatus::Loading);
    // the engine has loaded the asset
    process(&mut loader, &mut daemon, &storage).unwrap();
    assert_eq!(storage.take_log(), vec!["commit 1 type 7 version 1"]);
    assert_eq!(loader.get_load_status(a), LoadStatus::Loaded);
    assert_eq!(loader.get_asset(a), Some(([7; 16], a)));
    // nothing happens to it while it is referenced
    process(&mut loader, &mut daemon, &storage).unwrap();
    assert!(storage.take_log().is_empty());
    assert_eq!(loader.get_load_status(a), LoadStatus::Loaded);

    loader.remove_ref(a);
    process(&mut loader, &mut daemon, &storage).unwrap();
    assert_eq!(loader.get_load_status(a), LoadStatus::Unloading);
    assert_eq!(loader.get_asset(a), None);
    assert!(storage.take_log().is_empty());
    process(&mut loader, &mut daemon, &storage).unwrap();
    assert_eq!(loader.get_load_status(a), LoadStatus::Unloading);
    assert_eq!(storage.take_log(), vec!["free 1 type 7"]);
    process(&mut loader, &mut daemon, &storage).unwrap();
    assert_eq!(loader.get_load_status(a), LoadStatus::NotRequested);
    assert!(loader.get_load_info(a).is_none());
}

#[test]
fn asset_waits_for_its_dependencies() {
    let mut daemon = Daemon::new();
    daemon.add(id(1), vec![id(2)], b"top");
    daemon.add(id(2), Vec::new(), b"below");
    let mut loader = Loader::default();
    let storage = Storage::new();
    storage.behaviour.set(Behaviour::Keep);
    let top = loader.add_ref(id(1));
    for _ in 0..20 {
        process(&mut loader, &mut daemon, &storage).unwrap();
    }
    // the engine has not loaded the dependency
    assert_eq!(daemon.data_requests, vec![id(2)]);
    assert_eq!(loader.get_load_status(top), LoadStatus::Loading);
    for op in storage.kept.borrow_mut().drain(..) {
        op.complete();
    }
    storage.behaviour.set(Behaviour::Complete);
    wait_for_status(LoadStatus::Loaded, top, &mut loader, &mut daemon, &storage);
    assert_eq!(daemon.data_requests, vec![id(2), id(1)]);
}

#[test]
fn reference_during_unloading_brings_the_load_back() {
    let mut daemon = Daemon::new();
    daemon.add(id(1), Vec::new(), b"x");
    let mut loader = Loader::default();
    let storage = Storage::new();
    let a = loader.add_ref(id(1));
    wait_for_status(LoadStatus::Loaded, a, &mut loader, &mut daemon, &storage);
    loader.remove_ref(a);
    wait_for_status(LoadStatus::Unloading, a, &mut loader, &mut daemon, &storage);
    assert_eq!(loader.add_ref(id(1)), a);
    wait_for_status(LoadStatus::NotRequested, a, &mut loader, &mut daemon, &storage);
    assert!(loader.get_load_info(a).is_some());
    wait_for_status(LoadStatus::Loaded, a, &mut loader, &mut daemon, &storage);
}

#[test]
fn nothing_is_requested_without_a_connection() {
    let mut daemon = Daemon::new();
    daemon.add(id(1), Vec::new(), b"x");
    daemon.connection = ConnectionState::Connecting;
    let mut loader = Loader::default();
    let storage = Storage::new();
    loader.add_ref(id(1));
    for _ in 0..5 {
        process(&mut loader, &mut daemon, &storage).unwrap();
    }
    assert_eq!(daemon.address, None);
    assert!(daemon.metadata_requests.is_empty());
    daemon.connection = ConnectionState::Error;
    process(&mut loader, &mut daemon, &storage).unwrap();
    assert_eq!(daemon.address, Some("127.0.0.1:9999".to_string()));
    assert_eq!(daemon.metadata_requests.len(), 1);
}

#[test]
fn failed_requests_are_repeated() {
    let mut daemon = Daemon::new();
    daemon.add(id(1), Vec::new(), b"x");
    let mut loader = Loader::default();
    let storage = Storage::new();
    let a = loader.add_ref(id(1));
    process(&mut loader, &mut daemon, &storage).unwrap();
    daemon.silent = true;
    process(&mut loader, &mut daemon, &storage).unwrap();
    assert_eq!(daemon.metadata_requests.len(), 1);
    daemon.silent = false;
    daemon.failing = true;
    process(&mut loader, &mut daemon, &storage).unwrap();
    assert_eq!(daemon.metadata_requests.len(), 2);
    daemon.failing = false;
    while daemon.data_requests.is_empty() {
        process(&mut loader, &mut daemon, &storage).unwrap();
    }
    daemon.failing = true;
    process(&mut loader, &mut daemon, &storage).unwrap();
    assert_eq!(daemon.data_requests.len(), 2);
    daemon.failing = false;
    daemon.empty = true;
    process(&mut loader, &mut daemon, &storage).unwrap();
    assert_eq!(daemon.data_requests.len(), 3);
    daemon.empty = false;
    storage.reject.set(true);
    process(&mut loader, &mut daemon, &storage).unwrap();
    assert_eq!(daemon.data_requests.len(), 4);
    assert_eq!(storage.take_log(), vec!["update 1 type 7 size 1 version 1"]);
    storage.reject.set(false);
    wait_for_status(LoadStatus::Loaded, a, &mut loader, &mut daemon, &storage);
    // a version that was not taken is not used up
    assert_eq!(
        storage.take_log(),
        vec!["update 1 type 7 size 1 version 1", "commit 1 type 7 version 1"]
    );
    for op in storage.kept.borrow_mut().drain(..) {
        std::mem::forget(op);
    }
}

// ----- hot reload

#[test]
fn changes_become_visible_together() {
    let mut daemon = Daemon::new();
    daemon.add(id(1), Vec::new(), b"a");
    daemon.add(id(2), Vec::new(), b"b");
    daemon.add(id(3), Vec::new(), b"c");
    let mut loader = Loader::default();
    let storage = Storage::new();
    let a = loader.add_ref(id(1));
    let b = loader.add_ref(id(2));
    let c = loader.add_ref(id(3));
    for handle in [a, b, c].iter() {
        wait_for_status(LoadStatus::Loaded, *handle, &mut loader, &mut daemon, &storage);
    }
    storage.take_log();

    daemon.add(id(1), Vec::new(), b"aaaa");
    daemon.add(id(2), Vec::new(), b"bbbbb");
    daemon.changes = Some(changed(vec![id(1), id(9), id(2)]));
    storage.behaviour.set(Behaviour::Keep);
    process(&mut loader, &mut daemon, &storage).unwrap();
    let checks = daemon.change_checks;
    process(&mut loader, &mut daemon, &storage).unwrap();
    let mut updates = storage.take_log();
    updates.sort();
    assert_eq!(
        updates,
        vec![
            "update 1 type 7 size 4 version 2",
            "update 2 type 7 size 5 version 2"
        ]
    );
    // one of the two is loaded: nothing is committed, the old version stays in use
    storage.kept.borrow_mut().remove(0).complete();
    for _ in 0..5 {
        process(&mut loader, &mut daemon, &storage).unwrap();
    }
    assert!(storage.take_log().is_empty());
    assert_eq!(daemon.change_checks, checks);
    for handle in [a, b, c].iter() {
        assert_eq!(loader.get_load_status(*handle), LoadStatus::Loaded);
        assert_eq!(
            storage.map.read().unwrap()[handle].commit_version,
            Some(1)
        );
    }
    // both are loaded: both are committed in the same round
    storage.kept.borrow_mut().remove(0).complete();
    process(&mut loader, &mut daemon, &storage).unwrap();
    assert!(storage.take_log().is_empty());
    process(&mut loader, &mut daemon, &storage).unwrap();
    assert_eq!(
        storage.take_log(),
        vec!["commit 1 type 7 version 2", "commit 2 type 7 version 2"]
    );
    // the next changes are asked for, and later loads are committed by themselves
    process(&mut loader, &mut daemon, &storage).unwrap();
    assert_eq!(daemon.change_checks, checks + 1);
    assert_eq!(storage.map.read().unwrap()[&c].commit_version, Some(1));
}

#[test]
fn reload_of_unloaded_asset_is_finished() {
    let mut daemon = Daemon::new();
    daemon.add(id(1), Vec::new(), b"a");
    let mut loader = Loader::default();
    let storage = Storage::new();
    let a = loader.add_ref(id(1));
    wait_for_status(LoadStatus::Loaded, a, &mut loader, &mut daemon, &storage);
    loader.remove_ref(a);
    daemon.changes = Some(changed(vec![id(1)]));
    process(&mut loader, &mut daemon, &storage).unwrap();
    let checks = daemon.change_checks;
    while loader.get_load_info(a).is_some() {
        process(&mut loader, &mut daemon, &storage).unwrap();
        assert_eq!(daemon.change_checks, checks);
    }
    process(&mut loader, &mut daemon, &storage).unwrap();
    process(&mut loader, &mut daemon, &storage).unwrap();
    assert_eq!(daemon.change_checks, checks + 1);
}

#[test]
fn deleted_assets_are_unloaded() {
    let mut daemon = Daemon::new();
    daemon.add(id(1), Vec::new(), b"a");
    daemon.add(id(2), Vec::new(), b"b");
    let mut loader = Loader::default();
    let storage = Storage::new();
    let a = loader.add_ref(id(1));
    let b = loader.add_ref(id(2));
    wait_for_status(LoadStatus::Loaded, a, &mut loader, &mut daemon, &storage);
    wait_for_status(LoadStatus::Loaded, b, &mut loader, &mut daemon, &storage);
    let c = loader.add_ref(id(3));
    storage.take_log();
    daemon.changes = Some(AssetChanges {
        changed: Vec::new(),
        deleted: vec![id(1), id(3), id(9)],
    });
    process(&mut loader, &mut daemon, &storage).unwrap();
    assert_eq!(loader.get_load_status(a), LoadStatus::Unloading);
    assert_eq!(loader.get_load_status(b), LoadStatus::Loaded);
    assert_eq!(loader.get_load_status(c), LoadStatus::Loading);
    assert_eq!(loader.get_asset(a), None);
    assert_eq!(storage.take_log(), vec![format!("free {} type 7", a.0)]);
    assert_eq!(loader.get_load_info(a).map(|info| info.refs), Some(1));
}

/// Holds the calls on a storage against the order that they have to come in.
fn check_log(log: &[String]) {
    let mut handed: HashMap<String, String> = HashMap::new();
    let mut committed: HashMap<String, u32> = HashMap::new();
    for line in log {
        let words: Vec<&str> = line.split(' ').collect();
        let handle = words[1].to_string();
        let version = words[words.len() - 1].to_string();
        match words[0] {
            "update" => {
                let next = committed.get(&handle).map_or(1, |v| v + 1);
                assert_eq!(version, next.to_string(), "{}", line);
                handed.insert(handle, version);
            }
            "commit" => {
                assert_eq!(handed.remove(&handle), Some(version.clone()), "{}", line);
                committed.insert(handle, version.parse().unwrap());
            }
            _ => {
                handed.remove(&handle);
                committed.remove(&handle);
            }
        }
    }
}

#[test]
fn commits_are_of_the_version_handed_over() {
    let mut daemon = Daemon::new();
    daemon.add(id(1), Vec::new(), b"a");
    daemon.add(id(2), Vec::new(), b"b");
    let mut loader = Loader::default();
    let storage = Storage::new();
    let a = loader.add_ref(id(1));
    loader.add_ref(id(2));
    wait_for_status(LoadStatus::Loaded, a, &mut loader, &mut daemon, &storage);
    daemon.changes = Some(changed(vec![id(1), id(2)]));
    for _ in 0..6 {
        process(&mut loader, &mut daemon, &storage).unwrap();
    }
    daemon.changes = Some(changed(vec![id(1)]));
    process(&mut loader, &mut daemon, &storage).unwrap();
    storage.reject.set(true);
    for _ in 0..3 {
        process(&mut loader, &mut daemon, &storage).unwrap();
    }
    storage.reject.set(false);
    for _ in 0..4 {
        process(&mut loader, &mut daemon, &storage).unwrap();
    }
    daemon.changes = Some(AssetChanges {
        changed: Vec::new(),
        deleted: vec![id(1)],
    });
    for _ in 0..10 {
        process(&mut loader, &mut daemon, &storage).unwrap();
    }
    let log = storage.take_log();
    check_log(&log);
    let of_a: Vec<&str> = log
        .iter()
        .filter(|line| line.split(' ').nth(1) == Some(a.0.to_string().as_str()))
        .map(|line| line.as_str())
        .collect();
    let first: Vec<&str> = of_a.iter().map(|line| line.split(' ').next().unwrap()).collect();
    assert!(first.iter().filter(|word| **word == "free").count() == 1);
    assert!(of_a.iter().any(|line| line.ends_with("commit 1 type 7 version 3")));
    assert_eq!(of_a[of_a.len() - 1], format!("commit {} type 7 version 1", a.0));
}

#[test]
fn trees_load_and_unload_in_time() {
    let mut daemon = spawn_daemon("127.0.0.1:2505");
    let mut loader = Loader::new("127.0.0.1:2505".to_string());
    let storage = Storage::new();
    let other = loader.add_ref(uuid_of("60352042-616f-460e-abd2-546195c060fe"));
    let top = loader.add_ref(asset_tree()[0].0);
    // three ranks, twelve rounds for each
    for _ in 0..36 {
        process(&mut loader, &mut daemon, &storage).unwrap();
    }
    let handles: Vec<LoadHandle> = asset_tree()
        .iter()
        .map(|(asset, _)| loader.get_load(*asset).unwrap())
        .collect();
    for handle in handles.iter() {
        assert_eq!(loader.get_load_status(*handle), LoadStatus::Loaded);
    }
    storage.take_log();
    loader.remove_ref(top);
    // three ranks, three rounds for each
    for _ in 0..9 {
        process(&mut loader, &mut daemon, &storage).unwrap();
    }
    let log = storage.take_log();
    for handle in handles.iter() {
        assert_eq!(loader.get_load_status(*handle), LoadStatus::NotRequested);
        let free = format!("free {} type 7", handle.0);
        assert_eq!(log.iter().filter(|line| **line == free).count(), 1);
    }
    assert_eq!(log.len(), handles.len());
    assert_eq!(loader.get_load_status(other), LoadStatus::Loaded);
}

/// How far a load has come on its way to being loaded.
fn place(loader: &Loader, asset: AssetUuid) -> usize {
    let handle = match loader.get_load(asset) {
        Some(handle) => handle,
        None => return 0,
    };
    match loader.get_load_status(handle) {
        LoadStatus::NotRequested => 1,
        LoadStatus::Loading => 2,
        LoadStatus::Loaded => 3,
        other => panic!("unexpected status {:?}", other),
    }
}

#[test]
fn late_answers_take_nothing_back() {
    let mut daemon = spawn_daemon("127.0.0.1:2506");
    let mut loader = Loader::new("127.0.0.1:2506".to_string());
    let storage = Storage::new();
    storage.behaviour.set(Behaviour::Keep);
    let top = loader.add_ref(asset_tree()[0].0);
    let mut places = vec![0; asset_tree().len()];
    let mut rounds = 0;
    while places.iter().any(|place| *place < 3) {
        // a connection now and then, answers at other times, and reports at yet others
        daemon.connection = if rounds >= 10 && rounds % 3 == 0 {
            ConnectionState::Connected
        } else {
            ConnectionState::Connecting
        };
        daemon.silent = rounds % 5 != 1;
        if rounds % 7 == 2 {
            for op in storage.kept.borrow_mut().drain(..) {
                op.complete();
            }
        }
        process(&mut loader, &mut daemon, &storage).unwrap();
        for (place_before, (asset, _)) in places.iter_mut().zip(asset_tree()) {
            let now = place(&loader, asset);
            assert!(now >= *place_before);
            *place_before = now;
        }
        rounds += 1;
        assert!(rounds < 36 * 105, "a tree of three ranks is loaded by now");
    }
    for (asset, _) in asset_tree() {
        let handle = loader.get_load(asset).unwrap();
        assert_eq!(loader.get_load_status(handle), LoadStatus::Loaded);
    }
    loader.remove_ref(top);
    for _ in 0..9 {
        process(&mut loader, &mut daemon, &storage).unwrap();
    }
    let log = storage.take_log();
    for (asset, _) in asset_tree() {
        let handle = loader.get_load(asset).unwrap();
        assert_eq!(loader.get_load_status(handle), LoadStatus::NotRequested);
        let free = format!("free {} type 7", handle.0);
        assert_eq!(log.iter().filter(|line| **line == free).count(), 1);
    }
}

#[test]
fn setbacks_delay_loading_only() {
    let mut daemon = spawn_daemon("127.0.0.1:2507");
    let mut loader = Loader::new("127.0.0.1:2507".to_string());
    let storage = Storage::new();
    let top = loader.add_ref(asset_tree()[0].0);
    for round in 0..40 {
        daemon.failing = round % 2 == 0;
        storage.reject.set(round % 3 == 0);
        process(&mut loader, &mut daemon, &storage).unwrap();
        // nothing is given up
        for (asset, _) in asset_tree() {
            assert!(loader.get_load(asset).is_none() || place(&loader, asset) >= 1);
        }
    }
    daemon.failing = false;
    storage.reject.set(false);
    for _ in 0..36 {
        process(&mut loader, &mut daemon, &storage).unwrap();
    }
    assert_eq!(loader.get_load_status(top), LoadStatus::Loaded);
    for (asset, _) in asset_tree() {
        assert_eq!(place(&loader, asset), 3);
    }
}

#[test]
fn references_are_counted_over_rounds() {
    let mut daemon = spawn_daemon("127.0.0.1:2508");
    let mut loader = Loader::new("127.0.0.1:2508".to_string());
    let storage = Storage::new();
    let (root, shared) = (asset_tree()[0].0, asset_tree()[3].0);
    let top = loader.add_ref(root);
    for n in 1..6u32 {
        for _ in 0..8 {
            process(&mut loader, &mut daemon, &storage).unwrap();
            let info = loader.get_load_info(top).unwrap();
            assert_eq!((info.asset_id, info.refs), (root, n));
        }
        loader.add_ref(root);
    }
    // two assets depend on the shared one, and a caller
    let kept = loader.add_ref(shared);
    assert_eq!(loader.get_load_info(kept).unwrap().refs, 3);
    for n in 0..6u32 {
        assert_eq!(loader.get_load_info(top).unwrap().refs, 6 - n);
        loader.remove_ref(top);
        process(&mut loader, &mut daemon, &storage).unwrap();
    }
    wait_for_status(
        LoadStatus::NotRequested,
        top,
        &mut loader,
        &mut daemon,
        &storage,
    );
    assert!(loader.get_load_info(top).is_none());
    for _ in 0..9 {
        process(&mut loader, &mut daemon, &storage).unwrap();
    }
    // what the assets took of the shared one came back
    assert_eq!(loader.get_load_info(kept).unwrap().refs, 1);
    assert_eq!(loader.get_load_status(kept), LoadStatus::Loaded);
}

fn three_kept_loads() -> (Loader, Storage, Vec<LoadHandle>) {
    let mut daemon = Daemon::new();
    let mut loader = Loader::default();
    let storage = Storage::new();
    storage.behaviour.set(Behaviour::Keep);
    let mut handles = Vec::new();
    for n in 1..4 {
        daemon.add(id(n), Vec::new(), &[n]);
        handles.push(loader.add_ref(id(n)));
    }
    while storage.kept.borrow().len() < 3 {
        process(&mut loader, &mut daemon, &storage).unwrap();
    }
    storage.take_log();
    (loader, storage, handles)
}

#[test]
fn reports_are_followed_in_order() {
    let (mut loader, storage, handles) = three_kept_loads();
    let sender = loader.data.op_sender().clone();
    for handle in [handles[2], handles[0], handles[1]].iter() {
        sender.send(HandleOp::LoadComplete(*handle)).unwrap();
    }
    let mut traced = TracedStorage::new(&storage);
    assert!(loader.data.process_load_ops(&mut traced).is_ok());
    let expected: Vec<String> = [handles[2], handles[0], handles[1]]
        .iter()
        .map(|handle| format!("commit {} type 7 version 1", handle.0))
        .collect();
    assert_eq!(storage.take_log(), expected);
    // nothing is left
    assert!(loader.data.process_load_ops(&mut traced).is_ok());
    assert!(storage.take_log().is_empty());
}

#[test]
fn reports_behind_bad_news_wait() {
    let (mut loader, storage, handles) = three_kept_loads();
    let sender = loader.data.op_sender().clone();
    sender.send(HandleOp::LoadComplete(handles[0])).unwrap();
    sender
        .send(HandleOp::LoadError(handles[1], "broken".to_string()))
        .unwrap();
    sender.send(HandleOp::LoadComplete(handles[2])).unwrap();
    let mut traced = TracedStorage::new(&storage);
    match loader.data.process_load_ops(&mut traced) {
        Err(Fault::LoadFailed(handle, reason)) => {
            assert_eq!(handle, handles[1]);
            assert_eq!(reason, "broken");
        }
        _ => panic!("the report of failure was not followed"),
    }
    assert_eq!(
        storage.take_log(),
        vec![format!("commit {} type 7 version 1", handles[0].0)]
    );
    assert!(loader.data.process_load_ops(&mut traced).is_ok());
    assert_eq!(
        storage.take_log(),
        vec![format!("commit {} type 7 version 1", handles[2].0)]
    );
}

#[test]
fn references_are_counted() {
    let mut loader = Loader::default();
    let a = loader.add_ref(id(1));
    for n in 1..6u32 {
        loader.add_ref(id(2));
        loader.add_ref(id(1));
        assert_eq!(loader.get_load_info(a).map(|info| info.refs), Some(n + 1));
    }
    for n in 1..6u32 {
        loader.remove_ref(a);
        assert_eq!(loader.get_load_info(a).map(|info| info.refs), Some(6 - n));
    }
}

// ----- what stops the loader

fn loaded_to_data_request() -> (Loader, Daemon, Storage, LoadHandle) {
    let mut daemon = Daemon::new();
    daemon.add(id(1), Vec::new(), b"x");
    let mut loader = Loader::default();
    let storage = Storage::new();
    let a = loader.add_ref(id(1));
    while daemon.data_requests.is_empty() {
        process(&mut loader, &mut daemon, &storage).unwrap();
    }
    (loader, daemon, storage, a)
}

#[test]
fn each_load_takes_one_step_per_pass() {
    let mut daemon = Daemon::new();
    let storage = Storage::new();
    let mut loader = Loader::new("127.0.0.1:1".to_string());
    let mut handles = Vec::new();
    for n in 1..21 {
        daemon.add(id(n), Vec::new(), &[n]);
        handles.push(loader.add_ref(id(n)));
    }
    for handle in handles.iter() {
        wait_for_status(
            LoadStatus::Loaded,
            *handle,
            &mut loader,
            &mut daemon,
            &storage,
        );
        loader.remove_ref(*handle);
    }
    storage.take_log();

    let mut traced = TracedStorage::new(&storage);
    for freed in [0, 20, 0].iter() {
        for handle in handles.iter() {
            assert!(loader.get_load_info(*handle).is_some());
        }
        loader
            .data
            .process_load_states(&mut traced)
            .expect("the pass goes through");
        assert_eq!(storage.take_log().len(), *freed);
    }
    for handle in handles.iter() {
        assert!(loader.get_load_info(*handle).is_none());
        assert_eq!(loader.get_load_status(*handle), LoadStatus::NotRequested);
    }
}

#[test]
fn operations_report_once() {
    let (sender, receiver) = crossbeam_channel::unbounded();
    let sender = std::sync::Arc::new(sender);
    let op = AssetLoadOp::new(sender.clone(), LoadHandle(5));
    let ended = op.complete();
    let ended = ended.error("late".to_string());
    drop(ended.complete());
    assert!(matches!(
        receiver.try_recv(),
        Ok(HandleOp::LoadComplete(LoadHandle(5)))
    ));
    assert!(receiver.try_recv().is_err());

    drop(AssetLoadOp::new(sender.clone(), LoadHandle(6)).error("broken".to_string()));
    match receiver.try_recv() {
        Ok(HandleOp::LoadError(LoadHandle(6), reason)) => assert_eq!(reason, "broken"),
        other => panic!("unexpected report {:?}", other),
    }
    assert!(receiver.try_recv().is_err());

    drop(AssetLoadOp::new(sender, LoadHandle(7)));
    assert!(matches!(
        receiver.try_recv(),
        Ok(HandleOp::LoadDrop(LoadHandle(7)))
    ));
    assert!(receiver.try_recv().is_err());
}

#[test]
fn engine_errors_stop_the_loader() {
    let (mut loader, mut daemon, storage, a) = loaded_to_data_request();
    storage.behaviour.set(Behaviour::Fail);
    process(&mut loader, &mut daemon, &storage).unwrap();
    match process(&mut loader, &mut daemon, &storage) {
        Err(Fault::LoadFailed(handle, reason)) => {
            assert_eq!(handle, a);
            assert_eq!(reason, "broken");
        }
        other => panic!("{:?}", other),
    }
}

#[test]
fn dropped_operations_stop_the_loader() {
    let (mut loader, mut daemon, storage, a) = loaded_to_data_request();
    storage.behaviour.set(Behaviour::Forget);
    process(&mut loader, &mut daemon, &storage).unwrap();
    match process(&mut loader, &mut daemon, &storage) {
        Err(Fault::LoadDropped(handle)) => assert_eq!(handle, a),
        other => panic!("{:?}", other),
    }
}

#[test]
fn unexpected_completions_stop_the_loader() {
    let (mut loader, _daemon, storage, a) = loaded_to_data_request();
    let mut traced = TracedStorage::new(&storage);
    match loader
        .data
        .process_load_op(HandleOp::LoadComplete(LoadHandle(77)), &mut traced)
    {
        Err(Fault::CompletedUnknownLoad(handle)) => assert_eq!(handle, LoadHandle(77)),
        other => panic!("{:?}", other),
    }
    match loader
        .data
        .process_load_op(HandleOp::LoadComplete(a), &mut traced)
    {
        Err(Fault::NotCommittable(_)) => {}
        other => panic!("{:?}", other),
    }
    assert!(storage.take_log().is_empty());
}

#[test]
fn answers_for_unknown_loads_stop_the_loader() {
    let mut loader = Loader::default();
    let storage = Storage::new();
    let mut traced = TracedStorage::new(&storage);
    match loader
        .data
        .settle_data(&Some(data_response(&[7; 16], b"x")), LoadHandle(4), &mut traced)
    {
        Err(Fault::DataForUnknownLoad(handle)) => assert_eq!(handle, LoadHandle(4)),
        other => panic!("{:?}", other),
    }
    match loader.data.settle_metadata(&None, &vec![(id(1), LoadHandle(4))]) {
        Err(Fault::MetadataForUnknownLoad(handle)) => assert_eq!(handle, LoadHandle(4)),
        other => panic!("{:?}", other),
    }
    let a = loader.add_ref(id(1));
    match loader.data.settle_data(&None, a, &mut traced) {
        Err(Fault::NotLoading(_)) => {}
        other => panic!("{:?}", other),
    }
    match loader
        .data
        .settle_data(&Some(data_response(&[7; 16], b"x")), a, &mut traced)
    {
        Err(Fault::NotRequestingData(_)) => {}
        other => panic!("{:?}", other),
    }
}

#[test]
fn metadata_of_a_retired_asset_stops_the_loader() {
    let mut daemon = Daemon::new();
    daemon.add(id(1), Vec::new(), b"x");
    let mut loader = Loader::default();
    let storage = Storage::new();
    let a = loader.add_ref(id(1));
    wait_for_status(LoadStatus::Loaded, a, &mut loader, &mut daemon, &storage);
    loader.remove_ref(a);
    while loader.get_load_info(a).is_some() {
        process(&mut loader, &mut daemon, &storage).unwrap();
    }
    let response = MetadataResponse {
        assets: Ok(vec![record(id(1), &[])]),
    };
    match loader.data.settle_metadata(&Some(response), &Vec::new()) {
        Err(Fault::MetadataForUnknownLoad(handle)) => assert_eq!(handle, a),
        other => panic!("{:?}", other),
    }
}

#[test]
fn unreferenced_load_without_metadata_stops_the_loader() {
    let mut daemon = Daemon::new();
    let mut loader = Loader::default();
    let storage = Storage::new();
    let a = loader.add_ref(id(1));
    loader.remove_ref(a);
    process(&mut loader, &mut daemon, &storage).unwrap();
    match process(&mut loader, &mut daemon, &storage) {
        Err(Fault::MissingMetadata(asset)) => assert_eq!(asset, id(1)),
        other => panic!("{:?}", other),
    }
}

#[test]
fn release_of_unknown_dependency_stops_the_loader() {
    let mut loader = Loader::default();
    let storage = Storage::new();
    let mut traced = TracedStorage::new(&storage);
    let a = loader.add_ref(id(1));
    let response = MetadataResponse {
        assets: Ok(vec![record(id(1), &[id(2)])]),
    };
    loader
        .data
        .settle_metadata(&Some(response), &Vec::new())
        .unwrap();
    loader.remove_ref(a);
    assert!(!loader.data.advance(a.0, &mut traced).unwrap());
    match loader.data.advance(a.0, &mut traced) {
        Err(Fault::UnknownDependency(asset)) => assert_eq!(asset, id(2)),
        other => panic!("{:?}", other),
    }
}

#[test]
fn asset_of_another_type_stops_the_loader() {
    let (mut loader, mut daemon, storage, a) = loaded_to_data_request();
    wait_for_status(LoadStatus::Loaded, a, &mut loader, &mut daemon, &storage);
    daemon.changes = Some(changed(vec![id(1)]));
    daemon.assets.get_mut(&id(1)).unwrap().type_uuid = vec![8; 16];
    process(&mut loader, &mut daemon, &storage).unwrap();
    match process(&mut loader, &mut daemon, &storage) {
        Err(Fault::AssetTypeChanged(asset)) => assert_eq!(asset, id(1)),
        other => panic!("{:?}", other),
    }
}

#[test]
fn versions_run_out() {
    let loader = Loader::default();
    let storage = Storage::new();
    let mut traced = TracedStorage::new(&storage);
    let mut load = AssetLoad {
        asset_id: id(1),
        state: state::LoadState::Loaded(AssetLoadState::RequestingData),
        refs: 1,
        asset_type: Some([7; 16]),
        requested_version: Some(u32::MAX),
        loaded_version: Some(u32::MAX),
        auto_commit: false,
        pending_reload: false,
    };
    let artifact = Artifact {
        data: Ok(SerializedAsset {
            type_uuid: Ok(vec![7; 16]),
            data: Ok(vec![1]),
        }),
    };
    match load_data(&loader.data, LoadHandle(1), &load, &artifact, &mut traced) {
        Err(Failure::Fault(Fault::VersionOverflow(asset))) => assert_eq!(asset, id(1)),
        other => panic!("{:?}", other),
    }
    load.state = state::LoadState::Loaded(AssetLoadState::WaitingForData);
    match load_data(&loader.data, LoadHandle(1), &load, &artifact, &mut traced) {
        Err(Failure::Fault(Fault::NotRequestingData(_))) => {}
        other => panic!("{:?}", other),
    }
    assert!(storage.take_log().is_empty());
}

#[test]
fn outcome_of_an_update() {
    let mut load = AssetLoad {
        asset_id: id(1),
        state: state::LoadState::LoadingAsset(AssetLoadState::RequestingData),
        refs: 1,
        asset_type: None,
        requested_version: None,
        loaded_version: None,
        auto_commit: true,
        pending_reload: false,
    };
    assert!(matches!(
        result_of_update(&load, [7; 16], 1, false),
        Err(Failure::Rejected)
    ));
    let first = result_of_update(&load, [7; 16], 1, true).unwrap();
    assert_eq!(
        first.new_state,
        state::LoadState::LoadingAsset(AssetLoadState::LoadingAsset)
    );
    assert_eq!(first.new_version, Some(1));
    assert_eq!(first.asset_type, Some([7; 16]));
    load.loaded_version = Some(1);
    let second = result_of_update(&load, [7; 16], 2, true).unwrap();
    assert_eq!(
        second.new_state,
        state::LoadState::Loaded(AssetLoadState::LoadingAsset)
    );
}

#[test]
fn identifiers_of_wrong_length_stop_the_loader() {
    let (mut loader, mut daemon, storage, _a) = loaded_to_data_request();
    daemon.assets.get_mut(&id(1)).unwrap().type_uuid = vec![8; 15];
    match process(&mut loader, &mut daemon, &storage) {
        Err(Fault::IdLength) => {}
        other => panic!("{:?}", other),
    }
    let response = MetadataResponse {
        assets: Ok(vec![AssetRecord {
            id: Ok(vec![1; 16]),
            load_deps: Ok(vec![Ok(vec![2; 17])]),
        }]),
    };
    match loader.data.settle_metadata(&Some(response), &Vec::new()) {
        Err(Fault::IdLength) => {}
        other => panic!("{:?}", other),
    }
}

// ----- unreadable answers

#[test]
fn records_before_an_unreadable_one_are_used() {
    let mut loader = Loader::default();
    let storage = Storage::new();
    let mut traced = TracedStorage::new(&storage);
    let a = loader.add_ref(id(1));
    let b = loader.add_ref(id(2));
    let order = vec![a.0, b.0];
    loader.data.advance_all(&order, &mut traced).unwrap();
    let requested = loader.data.request_metadata_of(&order);
    assert_eq!(requested, vec![(id(1), a), (id(2), b)]);
    assert!(loader.data.request_metadata().is_empty());
    let response = MetadataResponse {
        assets: Ok(vec![
            record(id(1), &[]),
            AssetRecord {
                id: Ok(vec![2; 16]),
                load_deps: Ok(vec![Err(DecodeError)]),
            },
            record(id(3), &[]),
        ]),
    };
    loader
        .data
        .settle_metadata(&Some(response), &requested)
        .unwrap();
    // the first goes on, the second has to ask again
    assert_eq!(loader.data.request_metadata(), vec![(id(2), b)]);
    loader.data.advance_all(&order, &mut traced).unwrap();
    loader.data.advance_all(&order, &mut traced).unwrap();
    assert_eq!(loader.data.request_data(), vec![(id(1), a)]);
}

#[test]
fn unreadable_answers_count_as_failed() {
    let mut loader = Loader::default();
    let storage = Storage::new();
    let mut traced = TracedStorage::new(&storage);
    let a = loader.add_ref(id(1));
    let order = vec![a.0];
    loader.data.advance_all(&order, &mut traced).unwrap();
    for answer in vec![
        None,
        Some(MetadataResponse {
            assets: Err(DecodeError),
        }),
        Some(MetadataResponse {
            assets: Ok(vec![AssetRecord {
                id: Err(DecodeError),
                load_deps: Ok(Vec::new()),
            }]),
        }),
        Some(MetadataResponse {
            assets: Ok(vec![AssetRecord {
                id: Ok(vec![1; 16]),
                load_deps: Err(DecodeError),
            }]),
        }),
    ] {
        let requested = loader.data.request_metadata();
        assert_eq!(requested, vec![(id(1), a)]);
        loader.data.settle_metadata(&answer, &requested).unwrap();
    }
    let requested = loader.data.request_metadata();
    let good = Some(MetadataResponse {
        assets: Ok(vec![record(id(1), &[])]),
    });
    loader.data.settle_metadata(&good, &requested).unwrap();
    loader.data.advance_all(&order, &mut traced).unwrap();
    loader.data.advance_all(&order, &mut traced).unwrap();
    for answer in vec![
        None,
        Some(DataResponse {
            artifacts: Err(DecodeError),
        }),
        Some(DataResponse {
            artifacts: Ok(Vec::new()),
        }),
        Some(DataResponse {
            artifacts: Ok(vec![Artifact {
                data: Err(DecodeError),
            }]),
        }),
        Some(DataResponse {
            artifacts: Ok(vec![Artifact {
                data: Ok(SerializedAsset {
                    type_uuid: Err(DecodeError),
                    data: Ok(vec![1]),
                }),
            }]),
        }),
        Some(DataResponse {
            artifacts: Ok(vec![Artifact {
                data: Ok(SerializedAsset {
                    type_uuid: Ok(vec![7; 16]),
                    data: Err(DecodeError),
                }),
            }]),
        }),
    ] {
        assert_eq!(loader.data.request_data(), vec![(id(1), a)]);
        assert!(loader.data.request_data().is_empty());
        loader.data.settle_data(&answer, a, &mut traced).unwrap();
    }
    assert!(storage.take_log().is_empty());
    loader.data.request_data();
    loader
        .data
        .settle_data(&Some(data_response(&[7; 16], b"xy")), a, &mut traced)
        .unwrap();
    assert_eq!(storage.take_log(), vec!["update 1 type 7 size 2 version 1"]);
}
