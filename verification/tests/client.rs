use transfer_core::client::{
    batch_display_name, cancel_url, collect_files, common_ancestor_dir, file_name_of, info_url,
    message_url, metas, open_target, plan_files, prepare_url, probe_info, send_finished, text_error,
    text_sent, upload_url, CollectError, FsEntry, FsNode, HttpReply, PrepareReply, SendFlow,
    SendStep, UploadCounter, UploadReply, MAX_FILES,
};
use transfer_core::paths::{parse, System};
use transfer_core::proto::{CoreEvent, DeviceInfo, FileMeta};

const SYSTEMS: [System; 2] = [System::Unix, System::Windows];

fn file(path: &str, size: u64) -> FsEntry {
    FsEntry { path: path.to_string(), node: FsNode::File { size } }
}

fn dir(path: &str, entries: Vec<FsEntry>) -> FsEntry {
    FsEntry { path: path.to_string(), node: FsNode::Dir { entries } }
}

fn meta(id: &str, rel: &str, size: u64) -> FileMeta {
    FileMeta {
        id: id.to_string(),
        name: rel.rsplit('/').next().unwrap().to_string(),
        rel_path: rel.to_string(),
        size,
    }
}

#[test]
fn collect_flat_and_nested() {
    let folder = "lt-test-1f0c";
    let root = format!("/tmp/{folder}");
    let tree = dir(
        &root,
        vec![
            file(&format!("{root}/a.txt"), 5),
            dir(
                &format!("{root}/sub"),
                vec![
                    file(&format!("{root}/sub/b.bin"), 1024),
                    dir(
                        &format!("{root}/sub/deep"),
                        vec![file(&format!("{root}/sub/deep/c.md"), 1)],
                    ),
                ],
            ),
        ],
    );

    let files = collect_files(&vec![tree], System::Unix).unwrap();
    assert_eq!(files.len(), 3);
    let rels: Vec<&str> = files.iter().map(|(m, _)| m.rel_path.as_str()).collect();
    assert!(rels.contains(&format!("{folder}/a.txt").as_str()));
    assert!(rels.contains(&format!("{folder}/sub/b.bin").as_str()));
    assert!(rels.contains(&format!("{folder}/sub/deep/c.md").as_str()));
    let sizes: Vec<u64> = files.iter().map(|(m, _)| m.size).collect();
    assert!(sizes.contains(&5));
    assert!(sizes.contains(&1024));

    let single = collect_files(&vec![file(&format!("{root}/a.txt"), 5)], System::Unix).unwrap();
    assert_eq!(single.len(), 1);
    assert_eq!(single[0].0.rel_path, "a.txt");
}

#[test]
fn collect_empty_fails() {
    assert!(collect_files(&vec![dir("/tmp/lt-test-2b7e", vec![])], System::Unix).is_err());
}

#[test]
fn open_target_math() {
    for sys in SYSTEMS {
        let p =
            open_target("mydocs/sub/b.md", Some("/d/mydocs/sub/b.md"), None, sys).unwrap();
        assert_eq!(parse(&p, sys), parse("/d/mydocs", sys));
        let p = open_target("mydocs/a.txt", Some("/d/mydocs/a.txt"), None, sys).unwrap();
        assert_eq!(parse(&p, sys), parse("/d/mydocs", sys));
        let p = open_target("a.txt", Some("/d/a.txt"), None, sys).unwrap();
        assert_eq!(parse(&p, sys), parse("/d/a.txt", sys));
        let p = open_target("photos/x.jpg", None, Some("/tmp/photos/x.jpg"), sys).unwrap();
        assert_eq!(parse(&p, sys), parse("/tmp/photos", sys));
        assert!(open_target("a/b", None, None, sys).is_none());
    }
}

#[test]
fn batch_name_rules() {
    assert_eq!(batch_display_name(&["mydocs/a.txt", "mydocs/sub/b.md"]), "mydocs");
    assert_eq!(batch_display_name(&["loose.txt", "mydocs/a.txt"]), "2 个文件");
    assert_eq!(batch_display_name(&["a/x", "b/y"]), "2 个文件");
    assert_eq!(batch_display_name(&["only/a"]), "only");
}

#[test]
fn ancestor_dir_math() {
    for sys in SYSTEMS {
        let d = common_ancestor_dir(
            &["/d/mydocs/a.txt".to_string(), "/d/mydocs/sub/b.md".to_string()],
            sys,
        )
        .unwrap();
        assert_eq!(parse(&d, sys), parse("/d/mydocs", sys));
        let d =
            common_ancestor_dir(&["/d/a/x.txt".to_string(), "/d/b/y.txt".to_string()], sys)
                .unwrap();
        assert_eq!(parse(&d, sys), parse("/d", sys));
        assert!(common_ancestor_dir(&["/d/a".to_string()], sys).is_none());
        let d = common_ancestor_dir(
            &[r"C:\dl\fd\a.txt".to_string(), r"C:\dl\fd\b.txt".to_string()],
            sys,
        )
        .unwrap();
        assert_eq!(d, r"C:\dl\fd");
    }
}

#[test]
fn relative_paths_share_what_their_system_reads() {
    let ps = [r"x\a".to_string(), r"x\b".to_string()];
    assert_eq!(common_ancestor_dir(&ps, System::Windows).as_deref(), Some("x"));
    assert_eq!(common_ancestor_dir(&ps, System::Unix), None);
}

#[test]
fn ancestor_of_equal_paths_is_their_parent() {
    let same = ["/d/a.txt".to_string(), "/d/a.txt".to_string()];
    assert_eq!(common_ancestor_dir(&same, System::Unix).as_deref(), Some("/d"));
    let apart = ["a/x".to_string(), "b/y".to_string()];
    assert_eq!(common_ancestor_dir(&apart, System::Unix), None);
    let root = ["/".to_string(), "/".to_string()];
    assert_eq!(common_ancestor_dir(&root, System::Unix), None);
}

#[test]
fn names_of_paths() {
    assert_eq!(file_name_of("/d/a.txt", System::Unix), "a.txt");
    assert_eq!(file_name_of("/", System::Unix), "file");
    assert_eq!(file_name_of("/d/..", System::Unix), "file");
    assert_eq!(file_name_of("/d/sub/", System::Unix), "sub");
    assert_eq!(file_name_of(r"d\a.txt", System::Unix), r"d\a.txt");
    assert_eq!(file_name_of(r"d\a.txt", System::Windows), "a.txt");
    assert_eq!(file_name_of(r"\\srv\share\a.txt", System::Windows), "a.txt");
    assert_eq!(file_name_of(r"\\srv\share", System::Windows), "file");
}

#[test]
fn empty_batch_has_no_folder() {
    assert_eq!(batch_display_name(&[]), "0 个文件");
    assert_eq!(batch_display_name(&["/a", "/b"]), "");
}

#[test]
fn target_outside_the_path_is_none() {
    assert_eq!(open_target("a/b/c/d", Some("x/y"), None, System::Unix), None);
    assert_eq!(open_target("a/b/c", Some("x/y"), None, System::Unix).as_deref(), Some(""));
}

#[test]
fn collecting_reports_why_it_failed() {
    let gone = FsEntry {
        path: "/x".to_string(),
        node: FsNode::Unreadable { reason: "missing".to_string() },
    };
    let e = plan_files(&vec![gone], System::Unix).unwrap_err();
    assert_eq!(
        e,
        CollectError::Unreadable { path: "/x".to_string(), reason: "missing".to_string() }
    );
    assert_eq!(e.message(), "读取 /x 失败");
    assert_eq!(e.full_message(), "读取 /x 失败: missing");

    let closed = FsEntry {
        path: "/d".to_string(),
        node: FsNode::UnlistedDir { reason: "denied".to_string() },
    };
    let e = plan_files(&vec![closed], System::Unix).unwrap_err();
    assert_eq!(e.message(), "读取目录 /d 失败");
    assert_eq!(e.full_message(), "读取目录 /d 失败: denied");

    let e = plan_files(&vec![], System::Unix).unwrap_err();
    assert_eq!(e, CollectError::Empty);
    assert_eq!(e.full_message(), "没有可发送的文件");

    let many: Vec<FsEntry> = (0..=MAX_FILES).map(|i| file(&format!("/d/{i}"), 1)).collect();
    let e = plan_files(&many, System::Unix).unwrap_err();
    assert_eq!(e, CollectError::TooMany(MAX_FILES + 1));
    assert_eq!(e.message(), "文件数过多（4097），请分批发送");
}

#[test]
fn unreadable_entries_of_a_directory_are_skipped() {
    let tree = dir(
        "/d",
        vec![
            FsEntry {
                path: "/d/gone".to_string(),
                node: FsNode::Unreadable { reason: "missing".to_string() },
            },
            FsEntry { path: "/d/pipe".to_string(), node: FsNode::Other },
            file("/d/a", 3),
        ],
    );
    let planned = plan_files(&vec![tree], System::Unix).unwrap();
    assert_eq!(planned.len(), 1);
    assert_eq!(planned[0].rel_path, "d/a");
    assert_eq!(planned[0].source, "/d/a");
}

#[test]
fn collected_ids_are_fresh() {
    let files = collect_files(&vec![file("/d/a", 1), file("/d/b", 2)], System::Unix).unwrap();
    assert_eq!(files[0].0.id.len(), 36);
    assert_ne!(files[0].0.id, files[1].0.id);
    assert_eq!(files[0].1, "/d/a");
}

#[test]
fn collected_paths_are_safe_for_a_receiver() {
    let tree = dir("/home/me/photos", vec![file("/home/me/photos/夏天.jpg", 9)]);
    for (m, _) in collect_files(&vec![tree], System::Unix).unwrap() {
        for to in SYSTEMS {
            assert!(FileMeta::is_rel_path_safe(&m.rel_path, to));
        }
    }
}

#[test]
fn addresses_of_requests() {
    let base = "http://10.0.0.2:17878";
    assert_eq!(message_url(base), "http://10.0.0.2:17878/api/message");
    assert_eq!(prepare_url(base), "http://10.0.0.2:17878/api/transfer/prepare");
    assert_eq!(info_url(base), "http://10.0.0.2:17878/api/info");
    assert_eq!(cancel_url(base, "t"), "http://10.0.0.2:17878/api/transfer/cancel/t");
    assert_eq!(upload_url(base, "t", "f"), "http://10.0.0.2:17878/api/transfer/upload/t/f");
}

#[test]
fn text_replies() {
    let ok = HttpReply::Status { code: 204, text: "204 No Content".to_string() };
    assert_eq!(text_error(&ok), None);
    assert_eq!(text_sent("http://b", &ok), None);
    let refused = HttpReply::Status { code: 400, text: "400 Bad Request".to_string() };
    assert_eq!(text_error(&refused).as_deref(), Some("对方返回 400 Bad Request"));
    let away = HttpReply::Unreachable { cause: "refused".to_string() };
    assert_eq!(
        text_sent("http://b", &away),
        Some(CoreEvent::Error {
            context: "发送消息".to_string(),
            message: "发送到 http://b 失败：连接对方失败: refused".to_string(),
        })
    );
}

#[test]
fn probing_a_device() {
    let info = DeviceInfo {
        id: "b".to_string(),
        name: "B".to_string(),
        plat: "linux".to_string(),
        port: 1,
        v: 1,
    };
    let ok = HttpReply::Status { code: 200, text: "200 OK".to_string() };
    assert_eq!(probe_info(&ok, Some(info.clone()), ""), Ok(info.clone()));
    let mut other = info.clone();
    other.v = 2;
    assert_eq!(probe_info(&ok, Some(other), ""), Err("协议版本不兼容（对方 v2）".to_string()));
    assert_eq!(
        probe_info(&ok, None, "eof"),
        Err("对方不是 LocalTransfer 设备: eof".to_string())
    );
    let no = HttpReply::Status { code: 500, text: "500 Internal Server Error".to_string() };
    assert_eq!(
        probe_info(&no, Some(info), ""),
        Err("对方返回 500 Internal Server Error".to_string())
    );
    let away = HttpReply::Unreachable { cause: "timeout".to_string() };
    assert_eq!(
        probe_info(&away, None, ""),
        Err("连接失败，请检查 IP 与端口: timeout".to_string())
    );
}

fn flow() -> SendFlow {
    SendFlow {
        base: "http://b".to_string(),
        transfer_id: "x".to_string(),
        peer_id: "p".to_string(),
        peer_name: "P".to_string(),
        files: vec![
            (meta("f1", "d/a", 2), "/d/a".to_string()),
            (meta("f2", "d/b", 3), "/d/b".to_string()),
        ],
        token: String::new(),
        next: 0,
    }
}

fn prepared(token: &str) -> PrepareReply {
    PrepareReply::Reply {
        code: 200,
        text: "200 OK".to_string(),
        token: Some(token.to_string()),
    }
}

fn uploaded() -> UploadReply {
    UploadReply::Reply { code: 200, text: "200 OK".to_string() }
}

#[test]
fn sending_uploads_every_file_in_order() {
    let mut f = flow();
    match f.started() {
        CoreEvent::TransferStarted { transfer_id, outgoing, files, sources, save_dir, .. } => {
            assert_eq!(transfer_id, "x");
            assert!(outgoing);
            assert_eq!(files, metas(&flow().files));
            assert_eq!(sources, vec!["/d/a".to_string(), "/d/b".to_string()]);
            assert_eq!(save_dir, None);
        }
        other => panic!("{other:?}"),
    }
    assert_eq!(
        f.on_prepare(prepared("t"), false),
        SendStep::Upload {
            index: 0,
            url: "http://b/api/transfer/upload/t/f1".to_string(),
            path: "/d/a".to_string(),
        }
    );
    assert_eq!(
        f.on_upload(uploaded(), false),
        SendStep::Upload {
            index: 1,
            url: "http://b/api/transfer/upload/t/f2".to_string(),
            path: "/d/b".to_string(),
        }
    );
    assert_eq!(f.on_upload(uploaded(), false), SendStep::Done);
}

#[test]
fn refused_request_says_so() {
    let mut f = flow();
    let no = PrepareReply::Reply { code: 403, text: "403 Forbidden".to_string(), token: None };
    assert_eq!(
        f.on_prepare(no, false),
        SendStep::Abort { notify: None, reason: "对方拒绝了传输".to_string() }
    );
    let bad = PrepareReply::Reply { code: 400, text: "400 Bad Request".to_string(), token: None };
    assert_eq!(
        flow().on_prepare(bad, false),
        SendStep::Abort { notify: None, reason: "对方返回 400 Bad Request".to_string() }
    );
    let odd = PrepareReply::Reply { code: 200, text: "200 OK".to_string(), token: None };
    assert_eq!(
        flow().on_prepare(odd, false),
        SendStep::Abort { notify: None, reason: "解析对方响应失败".to_string() }
    );
    assert_eq!(
        flow().on_prepare(PrepareReply::Unreachable, false),
        SendStep::Abort { notify: None, reason: "连接对方失败".to_string() }
    );
}

#[test]
fn receiver_is_told_when_sending_ends_early() {
    let told = Some("http://b/api/transfer/cancel/t".to_string());
    let mut f = flow();
    assert_eq!(
        f.on_prepare(prepared("t"), true),
        SendStep::Abort { notify: told.clone(), reason: "已取消".to_string() }
    );

    let mut f = flow();
    f.on_prepare(prepared("t"), false);
    assert_eq!(
        f.on_upload(UploadReply::NotOpened, false),
        SendStep::Abort { notify: None, reason: "打开 /d/a 失败".to_string() }
    );

    let mut f = flow();
    f.on_prepare(prepared("t"), false);
    let conflict = UploadReply::Reply { code: 409, text: "409 Conflict".to_string() };
    assert_eq!(
        f.on_upload(conflict, false),
        SendStep::Abort { notify: told.clone(), reason: "传输被中断".to_string() }
    );

    let mut f = flow();
    f.on_prepare(prepared("t"), false);
    let failed = UploadReply::Reply { code: 500, text: "500 Internal Server Error".to_string() };
    assert_eq!(
        f.on_upload(failed, false),
        SendStep::Abort {
            notify: told.clone(),
            reason: "上传失败：500 Internal Server Error".to_string(),
        }
    );

    let mut f = flow();
    f.on_prepare(prepared("t"), false);
    assert_eq!(
        f.on_upload(UploadReply::Unreachable { cause: "reset".to_string() }, false),
        SendStep::Abort { notify: told, reason: "网络错误：reset".to_string() }
    );

    let mut f = flow();
    f.on_prepare(prepared("t"), false);
    assert_eq!(
        f.on_upload(UploadReply::Unreachable { cause: "reset".to_string() }, true),
        SendStep::Abort { notify: None, reason: "网络错误：reset".to_string() }
    );
}

#[test]
fn cancelling_hides_the_cause() {
    assert_eq!(
        send_finished("x", None, false),
        CoreEvent::TransferFinished { transfer_id: "x".to_string(), error: None }
    );
    assert_eq!(
        send_finished("x", Some("网络错误：reset".to_string()), true),
        CoreEvent::TransferFinished {
            transfer_id: "x".to_string(),
            error: Some("已取消".to_string()),
        }
    );
    assert_eq!(
        send_finished("x", Some("网络错误：reset".to_string()), false),
        CoreEvent::TransferFinished {
            transfer_id: "x".to_string(),
            error: Some("网络错误：reset".to_string()),
        }
    );
}

#[test]
fn upload_reports_are_spaced_and_the_last_one_always_comes() {
    let mut c = UploadCounter::new("x".to_string(), &meta("f1", "a", 100));
    assert!(c.on_chunk(10, 1_000).is_some());
    assert!(c.on_chunk(10, 1_100).is_none());
    assert_eq!(
        c.on_chunk(80, 1_101),
        Some(CoreEvent::FileProgress {
            transfer_id: "x".to_string(),
            file_id: "f1".to_string(),
            transferred: 100,
            total: 100,
            done: true,
            path: None,
        })
    );
}
