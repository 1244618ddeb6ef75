use git_rs::fetch::append_packet;
use git_rs::ls_remote::{list_advertised, ls_remote, ls_remote_v2, query_prefixes};
use git_rs::{
    LsRemoteOptions, LsRemoteSelection, ObjectId, PktLine, RemoteAdvertisement, Result,
    UploadPackTransport,
};

struct Remote {
    capabilities: &'static str,
}

impl Remote {
    fn bytes(&self) -> Vec<u8> {
        let main = ObjectId::from_bytes([1; 20]).to_string();
        let topic = ObjectId::from_bytes([2; 20]).to_string();
        let tag = ObjectId::from_bytes([3; 20]).to_string();
        let mut output = Vec::new();
        for line in [
            format!("{main} HEAD\0{}\n", self.capabilities),
            format!("{main} refs/heads/main\n"),
            format!("{topic} refs/heads/topic/x\n"),
            format!("{tag} refs/tags/v1\n"),
            format!("{main} refs/tags/v1^{{}}\n"),
        ] {
            append_packet(&mut output, line.as_bytes()).unwrap();
        }
        output.extend(PktLine::Flush.encode().unwrap());
        output
    }

    fn answer(&self) -> RemoteAdvertisement {
        RemoteAdvertisement::parse(&self.bytes()).unwrap()
    }
}

impl UploadPackTransport for Remote {
    fn advertise(&mut self) -> Result<Vec<u8>> {
        Ok(self.bytes())
    }

    fn request(&mut self, _request: &[u8]) -> Result<Vec<u8>> {
        Ok(Vec::new())
    }
}

fn remote() -> Remote {
    Remote {
        capabilities: "side-band-64k ofs-delta object-format=sha1 symref=HEAD:refs/heads/main",
    }
}

#[test]
fn v0_and_v2_list_identical_refs_symrefs_peels_and_tail_patterns() {
    let mut v0 = remote();
    let options = LsRemoteOptions {
        show_symrefs: true,
        ..LsRemoteOptions::default()
    };
    let one = ls_remote(&mut v0, &options).unwrap();
    let two = ls_remote_v2(&remote().answer(), &options).unwrap();
    assert_eq!(one.output(), two.output());
    assert!(String::from_utf8_lossy(one.output()).starts_with("ref: refs/heads/main\tHEAD\n"));
    assert!(one
        .entries()
        .iter()
        .any(|entry| entry.name() == b"refs/tags/v1^{}"));

    let matched = ls_remote(
        &mut v0,
        &LsRemoteOptions {
            selection: LsRemoteSelection::Branches,
            patterns: vec![b"x".to_vec()],
            ..LsRemoteOptions::default()
        },
    )
    .unwrap();
    assert_eq!(matched.entries().len(), 1);
    assert_eq!(matched.entries()[0].name(), b"refs/heads/topic/x");

    let tags = ls_remote_v2(
        &remote().answer(),
        &LsRemoteOptions {
            selection: LsRemoteSelection::Tags,
            refs_only: true,
            ..LsRemoteOptions::default()
        },
    )
    .unwrap();
    assert_eq!(tags.entries().len(), 1);
    assert_eq!(tags.entries()[0].name(), b"refs/tags/v1");
}

#[test]
fn enforces_advertisement_ref_output_and_server_option_limits() {
    let mut v0 = remote();
    assert!(ls_remote(
        &mut v0,
        &LsRemoteOptions {
            max_refs: 1,
            ..LsRemoteOptions::default()
        }
    )
    .is_err());
    assert!(ls_remote(
        &mut v0,
        &LsRemoteOptions {
            max_output_size: 1,
            ..LsRemoteOptions::default()
        }
    )
    .is_err());
    assert!(ls_remote(
        &mut v0,
        &LsRemoteOptions {
            server_options: vec![b"trace=1".to_vec()],
            ..LsRemoteOptions::default()
        }
    )
    .is_err());
    assert!(ls_remote_v2(
        &remote().answer(),
        &LsRemoteOptions {
            server_options: vec![b"bad\noption".to_vec()],
            ..LsRemoteOptions::default()
        }
    )
    .is_err());
    assert!(list_advertised(
        &remote().bytes(),
        &LsRemoteOptions {
            max_advertisement_size: 8,
            ..LsRemoteOptions::default()
        }
    )
    .is_err());
}

#[test]
fn v2_reference_query_does_not_require_fetch_capability() {
    let transport = Remote {
        capabilities: "object-format=sha1",
    };
    let result = ls_remote_v2(&transport.answer(), &LsRemoteOptions::default()).unwrap();
    assert!(result
        .entries()
        .iter()
        .any(|entry| entry.name() == b"refs/heads/main"));
}

#[test]
fn listings_have_exact_lines() {
    let result = list_advertised(
        &remote().bytes(),
        &LsRemoteOptions {
            selection: LsRemoteSelection::Branches,
            ..LsRemoteOptions::default()
        },
    )
    .unwrap();
    assert_eq!(
        String::from_utf8_lossy(result.output()),
        format!(
            "{}\trefs/heads/main\n{}\trefs/heads/topic/x\n",
            "01".repeat(20),
            "02".repeat(20)
        )
    );
    assert_eq!(
        query_prefixes(LsRemoteSelection::Branches),
        vec![b"refs/heads/".to_vec()]
    );
}
