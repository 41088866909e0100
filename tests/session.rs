use chartered_git::index::IndexTree;
use chartered_git::object::PackFileEntry;
use chartered_git::protocol::{config_json, parse_exec, ExecError, Protocol, Step};
use chartered_git::session::{build_repository, commit_identity, Auth, ExecOutcome, Handler, LoggedIn};

fn hex(b: &[u8]) -> String {
    b.iter().map(|x| format!("{:02x}", x)).collect()
}

fn logged_in() -> Handler {
    let mut h = Handler::new(Some(b"127.0.0.1:5000".to_vec()));
    let found = LoggedIn { user_id: 1, username: b"jo".to_vec(), ssh_key_id: 2 };
    assert_eq!(h.auth_publickey(Some(found)), Auth::Accept);
    h
}


#[test]
fn exec_upload_pack_advertises() {
    let mut h = logged_in();
    assert!(matches!(h.exec_request(b"git-upload-pack '/my-org'"), ExecOutcome::Serve));
    assert_eq!(h.organisation.as_deref(), Some(&b"my-org"[..]));
    let out = h.flush();
    let want = "000eversion 2\n001aagent=chartered/0.1.0\n0013ls-refs=unborn\n0020fetch=shallow wait-for-done\n0012server-option\n0010object-info\n0000";
    assert_eq!(String::from_utf8(out).unwrap(), want);
    assert!(h.flush().is_empty());
}

#[test]
fn empty_registry_ls_refs() {
    let mut h = logged_in();
    assert!(matches!(h.exec_request(b"git-upload-pack /org"), ExecOutcome::Serve));
    h.flush();
    assert_eq!(h.data(b"0014command=ls-refs\n"), Ok(Step::Wait));
    assert_eq!(h.data(b"0000"), Ok(Step::Respond { ls_refs: true, fetch: false, close: false }));
    let config = config_json(b"http://127.0.0.1:8888", b"KEY", b"org");
    let index = build_repository(config, &IndexTree::new());
    let root = match &index.entries[1] {
        PackFileEntry::Tree(items) => items.iter().map(|i| i.name.clone()).collect::<Vec<_>>(),
        _ => panic!("root is not a tree"),
    };
    assert_eq!(root, vec![b"config.json".to_vec()]);
    let commit = hex(&index.commit_hash);
    assert_eq!(h.respond(true, false, false, index), Ok(false));
    let out = String::from_utf8(h.flush()).unwrap();
    assert_eq!(out, format!("0052{} HEAD symref-target:refs/heads/master\n0000", commit));
}

#[test]
fn single_crate_fetch_with_done() {
    let mut h = logged_in();
    assert!(matches!(h.exec_request(b"git-upload-pack /org"), ExecOutcome::Serve));
    h.flush();
    let step = h.data(b"0012command=fetch\n00010009done\n0000").unwrap();
    assert_eq!(step, Step::Respond { ls_refs: false, fetch: true, close: false });
    let mut tree = IndexTree::new();
    tree.insert(b"serde".to_vec(), b"{\"name\":\"serde\",\"vers\":\"1.0.0\"}\n".to_vec());
    let index = build_repository(b"{}".to_vec(), &tree);
    assert_eq!(index.entries.len(), 6);
    assert_eq!(h.respond(false, true, false, index), Ok(true));
    let out = h.flush();
    let head = b"0014acknowledgments\n000aready\n0001000dpackfile\n001b\x02Hello from chartered!\n";
    assert_eq!(&out[..head.len()], &head[..]);
    assert_eq!(&out[head.len() + 4..head.len() + 9], b"\x01PACK");
    assert_eq!(&out[head.len() + 13..head.len() + 17], &[0, 0, 0, 6]);
    assert_eq!(&out[out.len() - 4..], b"0000");
}

#[test]
fn ls_refs_and_fetch_in_one_session() {
    let mut p = Protocol::new();
    let step = p.receive(b"0014command=ls-refs\n00000012command=fetch\n0000").unwrap();
    assert_eq!(step, Step::Respond { ls_refs: true, fetch: true, close: false });
    assert!(!p.state.ls_refs_pending && !p.state.fetch_pending);
    assert_eq!(p.receive(b""), Ok(Step::Wait));
}

#[test]
fn flush_without_command_closes() {
    let mut p = Protocol::new();
    assert_eq!(p.receive(b"0000"), Ok(Step::Close));
}

#[test]
fn unserved_command_closes() {
    let mut p = Protocol::new();
    assert_eq!(p.receive(b"0018command=object-info\n0000"), Ok(Step::Close));
}

#[test]
fn done_is_recorded_in_fetch_arguments() {
    let mut p = Protocol::new();
    assert_eq!(p.receive(b"0012command=fetch\n00010009done\n"), Ok(Step::Wait));
    assert!(p.state.done_seen && p.state.in_args);
}

#[test]
fn bad_frame_is_protocol_abuse() {
    let mut p = Protocol::new();
    assert!(p.receive(b"00zz").is_err());
}

#[test]
fn bad_command_closes_without_frames() {
    let mut h = logged_in();
    assert!(matches!(h.exec_request(b"git-receive-pack /org"), ExecOutcome::Close));
    assert!(h.flush().is_empty());
    assert!(matches!(h.exec_request(b"git-upload-pack 'unclosed"), ExecOutcome::Close));
}

#[test]
fn missing_org_is_explained() {
    let mut h = logged_in();
    match h.exec_request(b"git-upload-pack /") {
        ExecOutcome::Refuse(m) => {
            assert!(String::from_utf8(m).unwrap().contains("No organisation was given"))
        }
        _ => panic!("expected a refusal"),
    }
    assert!(h.flush().is_empty());
    assert!(h.organisation.is_none());
    assert!(matches!(h.exec_request(b"git-upload-pack"), ExecOutcome::Refuse(_)));
}

#[test]
fn unknown_key_rejected() {
    let mut h = Handler::new(None);
    assert_eq!(h.auth_publickey(None), Auth::Reject);
    assert!(h.user.is_none());
    assert_eq!(h.auth_other(), Auth::UnsupportedMethod);
}

#[test]
fn shell_is_refused() {
    let h = logged_in();
    let m = String::from_utf8(h.shell_request().unwrap()).unwrap();
    assert_eq!(m, "Hi there, jo! You've successfully authenticated, but chartered does not provide shell access.\r\n");
    assert!(Handler::new(None).shell_request().is_none());
}

#[test]
fn exec_words_and_slashes() {
    assert_eq!(parse_exec(b"git-upload-pack '//acme//'"), Ok(b"acme".to_vec()));
    assert_eq!(parse_exec(b"git-upload-pack \"a/b\" extra"), Ok(b"a/b".to_vec()));
    assert_eq!(parse_exec(b"git-upload-pack //"), Err(ExecError::BadPath));
    assert_eq!(parse_exec(b""), Err(ExecError::BadExec));
}

#[test]
fn config_template() {
    let c = config_json(b"http://h", b"K", b"o");
    assert_eq!(
        String::from_utf8(c).unwrap(),
        "{\"dl\":\"http://h/a/K/o/o/api/v1/crates\",\"api\":\"http://h/a/K/o/o\"}"
    );
}

#[test]
fn fixed_commit_date() {
    let u = commit_identity();
    assert_eq!(u.time, 1631123161);
    assert_eq!(u.name, b"chartered".to_vec());
}

#[test]
fn pending_answers_come_before_close() {
    let mut p = Protocol::new();
    let step = p.receive(b"0014command=ls-refs\n00000000").unwrap();
    assert_eq!(step, Step::Respond { ls_refs: true, fetch: false, close: true });
    let mut h = logged_in();
    let index = build_repository(b"{}".to_vec(), &IndexTree::new());
    assert_eq!(h.respond(true, false, true, index), Ok(true));
}

#[test]
fn non_utf8_exec_is_refused() {
    let mut h = logged_in();
    assert_eq!(parse_exec(b"git-upload-pack /\xff\xfe"), Err(ExecError::BadExec));
    assert!(matches!(h.exec_request(b"git-upload-pack /\xfforg"), ExecOutcome::Close));
    assert!(h.organisation.is_none());
    assert!(h.flush().is_empty());
}
