use git_rs::fetch::{append_packet, parse_fetch_response};
use git_rs::{
    Ancestry, CloneOptions, Commit, Error, FetchOptions, FileSystem, MemoryFileSystem, ObjectId,
    ObjectKind, PktLine, PreviousValue, RefSpec, RemoteAdvertisement, RemoteRef, Repository,
    Sideband, Signature,
};

const CAPABILITIES: &str = "side-band-64k ofs-delta object-format=sha1";

fn repository() -> Repository {
    let mut files = MemoryFileSystem::new();
    files.create_dir_all(b"repo/.git/objects/pack").unwrap();
    Repository::open(files, b"repo/.git", Some(b"repo")).unwrap()
}

fn advertised(refs: &[(&str, ObjectId)]) -> Vec<u8> {
    let mut bytes = Vec::new();
    if refs.is_empty() {
        append_packet(
            &mut bytes,
            format!(
                "{} capabilities^{{}}\0{CAPABILITIES}\n",
                ObjectId::null().to_string()
            )
            .as_bytes(),
        )
        .unwrap();
    }
    for (position, (name, id)) in refs.iter().enumerate() {
        let tail = if position == 0 {
            format!("\0{CAPABILITIES} symref=HEAD:refs/heads/main\n")
        } else {
            "\n".to_owned()
        };
        append_packet(
            &mut bytes,
            format!("{} {name}{tail}", id.to_string()).as_bytes(),
        )
        .unwrap();
    }
    bytes.extend(PktLine::Flush.encode().unwrap());
    bytes
}

fn commit(repository: &mut Repository, parents: Vec<ObjectId>, message: &[u8]) -> ObjectId {
    let tree = repository.write_object(ObjectKind::Tree, b"").unwrap();
    let who = || Signature::new(b"Clone", b"clone@example.com", 1, 0).unwrap();
    repository
        .write_commit(&Commit::new(tree, parents, who(), who(), message.to_vec()))
        .unwrap()
}

#[test]
fn rejects_trailing_and_duplicate_advertisement_data() {
    let mut bytes = advertised(&[]);
    assert!(RemoteAdvertisement::parse(&bytes).is_ok());
    bytes.push(b'x');
    assert!(RemoteAdvertisement::parse(&bytes).is_err());
    let id = ObjectId::from_bytes([3; 20]);
    let twice = advertised(&[("refs/heads/a", id), ("refs/heads/a", id)]);
    assert!(RemoteAdvertisement::parse(&twice).is_err());
}

#[test]
fn accepts_peeled_tag_advertisements() {
    let id = "0123456789012345678901234567890123456789";
    let mut bytes = Vec::new();
    append_packet(
        &mut bytes,
        format!("{id} refs/tags/v1\0side-band-64k ofs-delta object-format=sha1\n").as_bytes(),
    )
    .unwrap();
    append_packet(&mut bytes, format!("{id} refs/tags/v1^{{}}\n").as_bytes()).unwrap();
    bytes.extend(PktLine::Flush.encode().unwrap());

    let advertisement = RemoteAdvertisement::parse(&bytes).unwrap();
    assert_eq!(advertisement.refs().len(), 2);
    assert_eq!(advertisement.refs()[1].name(), b"refs/tags/v1^{}");
}

#[test]
fn advertisements_name_the_default_branch() {
    let id = ObjectId::from_bytes([3; 20]);
    let bytes = advertised(&[("HEAD", id), ("refs/heads/main", id)]);
    let advertisement = RemoteAdvertisement::parse(&bytes).unwrap();
    assert_eq!(
        advertisement.head_target(),
        Some(b"refs/heads/main".as_slice())
    );
    assert_eq!(
        advertisement.default_branch().unwrap().name(),
        b"refs/heads/main"
    );
    assert_eq!(advertisement.initial_branch(), b"main");
    assert!(RemoteAdvertisement::parse_with_limit(&bytes, 1).is_err());
}

#[test]
fn fetch_requests_only_what_is_not_held() {
    let mut repository = repository();
    let base = commit(&mut repository, Vec::new(), b"base\n");
    let tip = ObjectId::from_bytes([9; 20]);
    let bytes = advertised(&[("refs/heads/main", tip), ("refs/heads/old", base)]);
    let advertisement = RemoteAdvertisement::parse(&bytes).unwrap();
    let plan = repository
        .fetch(&advertisement, &[base], &FetchOptions::default())
        .unwrap();
    assert_eq!(plan.selected.len(), 2);
    let request = String::from_utf8(plan.request.unwrap()).unwrap();
    assert!(request.contains(&format!("want {}", tip.to_string())));
    assert!(request.contains(&format!("have {}", base.to_string())));
    assert!(request.ends_with("0009done\n"));
    let empty = RemoteAdvertisement::parse(&advertised(&[])).unwrap();
    let nothing = repository
        .fetch(&empty, &[base], &FetchOptions::default())
        .unwrap();
    assert!(nothing.request.is_none());
}

#[test]
fn named_fetch_honors_positive_negative_and_custom_refspecs() {
    let mut repository = repository();
    let main = commit(&mut repository, Vec::new(), b"main\n");
    let private = commit(&mut repository, vec![main], b"private\n");
    let change = commit(&mut repository, vec![main], b"change\n");
    let bytes = advertised(&[
        ("refs/changes/123", change),
        ("refs/heads/main", main),
        ("refs/heads/private/secret", private),
    ]);
    let advertisement = RemoteAdvertisement::parse(&bytes).unwrap();
    let rules = [
        RefSpec {
            source: b"refs/heads/*".to_vec(),
            destination: Some(b"refs/remotes/origin/*".to_vec()),
            negative: false,
            force: true,
        },
        RefSpec {
            source: b"refs/heads/private/*".to_vec(),
            destination: None,
            negative: true,
            force: false,
        },
        RefSpec {
            source: b"refs/changes/*".to_vec(),
            destination: Some(b"refs/cache/*".to_vec()),
            negative: false,
            force: true,
        },
    ];
    let plan = repository
        .fetch_remote(
            b"origin",
            &rules,
            &advertisement,
            &[],
            &FetchOptions::default(),
        )
        .unwrap();
    let edits = repository
        .fetch_ref_edits(
            &plan.selected,
            b"origin",
            false,
            Some(&rules),
            &[],
            &Ancestry { pairs: Vec::new() },
            4096,
        )
        .unwrap();
    let mut found: Vec<(Vec<u8>, ObjectId)> = edits
        .iter()
        .map(|edit| (edit.name().to_vec(), edit.id()))
        .collect();
    found.sort();
    assert_eq!(
        found,
        vec![
            (b"refs/cache/123".to_vec(), change),
            (b"refs/remotes/origin/main".to_vec(), main),
        ]
    );
    assert_eq!(edits[0].previous(), PreviousValue::MustNotExist);
}

#[test]
fn fetch_responses_carry_the_pack_on_the_data_band() {
    let mut response = PktLine::Data(b"NAK\n".to_vec()).encode().unwrap();
    response.extend(Sideband::Progress(b"counting".to_vec()).encode().unwrap());
    response.extend(Sideband::Data(b"PA".to_vec()).encode().unwrap());
    response.extend(Sideband::Data(b"CK".to_vec()).encode().unwrap());
    response.extend(PktLine::Flush.encode().unwrap());
    assert_eq!(parse_fetch_response(&response).unwrap(), b"PACK");
    for pieces in [vec![], vec![&b"P"[..], b"", b"A", b"CK and", b" more"]] {
        let mut response = PktLine::Data(b"NAK\n".to_vec()).encode().unwrap();
        for piece in &pieces {
            response.extend(Sideband::Data(piece.to_vec()).encode().unwrap());
            response.extend(Sideband::Progress(b"...".to_vec()).encode().unwrap());
        }
        response.extend(PktLine::Flush.encode().unwrap());
        match parse_fetch_response(&response) {
            Ok(pack) => assert_eq!(pack, pieces.concat()),
            Err(error) => {
                assert!(pieces.is_empty());
                assert!(matches!(error, Error::Protocol(_)));
            }
        }
    }
    let mut failed = PktLine::Data(b"NAK\n".to_vec()).encode().unwrap();
    failed.extend(Sideband::Error(b"no".to_vec()).encode().unwrap());
    failed.extend(PktLine::Flush.encode().unwrap());
    assert!(matches!(
        parse_fetch_response(&failed),
        Err(Error::Protocol(_))
    ));
}

#[test]
fn clone_plans_check_out_the_default_branch() {
    let id = ObjectId::from_bytes([3; 20]);
    let bytes = advertised(&[("HEAD", id), ("refs/heads/main", id)]);
    let advertisement = RemoteAdvertisement::parse(&bytes).unwrap();
    let plan = Repository::clone_from(
        &advertisement,
        &CloneOptions {
            remote_url: b"memory://remote".to_vec(),
            ..CloneOptions::default()
        },
    )
    .unwrap();
    assert_eq!(plan.initial_branch, b"main");
    assert_eq!(plan.checkout, Some(id));
    assert!(plan
        .settings
        .contains(&(b"remote.origin.url".to_vec(), b"memory://remote".to_vec())));
    assert!(plan.settings.contains(&(
        b"remote.origin.fetch".to_vec(),
        b"+refs/heads/*:refs/remotes/origin/*".to_vec()
    )));
    let bare = Repository::clone_from(
        &advertisement,
        &CloneOptions {
            bare: true,
            checkout: false,
            ..CloneOptions::default()
        },
    )
    .unwrap();
    assert!(bare.checkout.is_none());
    assert!(bare.settings.contains(&(
        b"remote.origin.fetch".to_vec(),
        b"+refs/heads/*:refs/heads/*".to_vec()
    )));
    assert!(!bare
        .settings
        .iter()
        .any(|(name, _)| name == b"branch.main.remote"));
}

#[test]
fn bare_mapping_keeps_branch_names() {
    let mut repository = repository();
    let main = commit(&mut repository, Vec::new(), b"main\n");
    let topic = commit(&mut repository, vec![main], b"topic\n");
    let selected = [
        RemoteRef::new(b"refs/heads/main".to_vec(), main),
        RemoteRef::new(b"refs/heads/topic".to_vec(), topic),
    ];
    let edits = repository
        .fetch_ref_edits(
            &selected,
            b"origin",
            true,
            None,
            &[],
            &Ancestry { pairs: Vec::new() },
            4096,
        )
        .unwrap();
    let names: Vec<&[u8]> = edits.iter().map(|edit| edit.name()).collect();
    assert_eq!(
        names,
        vec![&b"refs/heads/main"[..], &b"refs/heads/topic"[..]]
    );
}
