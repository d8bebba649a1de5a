use rr::cli::{
    auth_step, bundle_line, child_args, command_kind, epub_file_name, expiry_line,
    extract_h1_title, looks_like_html, ls_rows, map_rr_err, plan_verdict, push_parent,
    push_source, push_title, report_push_plan, upload_target, uploaded_lines, verdict_error,
    AuthStep, Command, DeviceArg, EpubMeta, PlanVerdict, UploadTarget, WireFormat,
};
use rr::cloud_api::FileItem;
use rr::error::Error;
use rr::markdown::Metadata;
use rr::notebook::bundle::assemble_bundle;
use rr::notebook::{BundleOptions, PageInput, PagePlan};
use rr::sync_v3::{DocumentInfo, PushPlan, RootDiff};
use rr::v6::page::Device;

#[test]
fn devices_map_to_models() {
    assert_eq!(Device::from(DeviceArg::PaperPro), Device::PaperPro);
    assert_eq!(Device::from(DeviceArg::PaperProMove), Device::PaperProMove);
    assert_eq!(Device::from(DeviceArg::Rm2), Device::Rm2);
}

#[test]
fn commands_have_job_kinds() {
    let rm = Command::Rm { id: "x".to_string() };
    assert_eq!(command_kind(&rm), "rm");
    let mkdir = Command::Mkdir {
        name: "x".to_string(),
        parent: None,
    };
    assert_eq!(command_kind(&mkdir), "mkdir");
    let push = Command::Push {
        file: "f".to_string(),
        title: None,
        device: DeviceArg::PaperPro,
        parent: None,
        rm: None,
        dry_run: false,
    };
    assert_eq!(command_kind(&push), "push");
    let connect = Command::ConnectPush {
        file: "f".to_string(),
        title: None,
        folder: None,
        dir: None,
        format: WireFormat::Epub,
        background: false,
    };
    assert_eq!(command_kind(&connect), "connect-push");
    assert_eq!(command_kind(&Command::Status), "other");
}

#[test]
fn errors_are_shown() {
    assert_eq!(map_rr_err(&Error::AuthExpired), "token expired — run `rr auth` to re-pair");
    assert_eq!(map_rr_err(&Error::Cancelled), "operation cancelled");
}

#[test]
fn tokens_are_refreshed_when_expired() {
    assert_eq!(auth_step(false, true), AuthStep::Pair);
    assert_eq!(auth_step(false, false), AuthStep::Pair);
    assert_eq!(auth_step(true, true), AuthStep::Refresh);
    assert_eq!(auth_step(true, false), AuthStep::Ready);
    assert_eq!(expiry_line(None, 5), "Token expiry: unknown");
    assert_eq!(expiry_line(Some(185), 5), "Token expires in 3 minutes");
    assert_eq!(expiry_line(Some(5), 5), "Token expired (0s ago)");
    assert_eq!(expiry_line(Some(-10), 5), "Token expired (15s ago)");
}

#[test]
fn parents_are_uuids() {
    let id = "581e3dc3-267f-47a1-9d4e-cad298d85483";
    assert_eq!(push_parent(None).unwrap(), None);
    let spaced = format!(" {id}\n");
    assert_eq!(push_parent(Some(&spaced)).unwrap().as_deref(), Some(id));
    // The other spellings that the parser reads.
    assert!(push_parent(Some("581E3DC3267F47A19D4ECAD298D85483")).is_ok());
    assert!(push_parent(Some("{581e3dc3-267f-47a1-9d4e-cad298d85483}")).is_ok());
    assert!(push_parent(Some("urn:uuid:581e3dc3-267f-47a1-9d4e-cad298d85483")).is_ok());
    assert!(push_parent(Some("")).is_err());
    assert!(push_parent(Some("581e3dc3-267f-47a1-9d4ecad298d854-83")).is_err());
    assert_eq!(
        push_parent(Some(" Work ")).unwrap_err().message(),
        "--parent 'Work' is not a folder UUID; run `rr ls --folders` to find folder ids"
    );
}

#[test]
fn titles_come_from_flag_heading_or_stem() {
    assert_eq!(push_title(Some("c".to_string()), "# H", Some("s")), "c");
    assert_eq!(push_title(None, "# H", Some("s")), "H");
    assert_eq!(push_title(None, "x", Some("s")), "s");
    assert_eq!(push_title(None, "x", None), "Untitled");
    assert_eq!(extract_h1_title("x\n # T \n"), Some("T".to_string()));
}

#[test]
fn frontmatter_is_taken_off_before_a_push() {
    let s = push_source("---\ntitle: F\n---\n# H\n\nx\n", None, Some("stem"));
    assert_eq!(s.title, "H");
    assert_eq!(s.body, "# H\n\nx\n");
    assert!(!s.ambiguous);
    let s = push_source("---\nprose\n---\n", None, Some("stem"));
    assert_eq!(s.title, "stem");
    assert_eq!(s.body, "---\nprose\n---\n");
    assert!(s.ambiguous);
}

#[test]
fn bundles_are_announced() {
    let opts = BundleOptions::new("N", vec![PageInput::from_markdown_raw("x")]);
    let plans = vec![PagePlan {
        uuid: "p1".to_string(),
        scroll_time: "s".to_string(),
        image_names: vec![],
    }];
    let b = assemble_bundle(&opts, &plans, &vec![vec![9, 9]], 1, 2);
    let bytes = b.metadata_json.len() + b.content_json.len() + b.pagedata.len() + 59;
    assert_eq!(
        bundle_line(&b),
        format!("  doc: {} | pages: 1 | bytes to upload: {bytes}", b.doc_uuid)
    );
}

fn plan(removed: &[&str], added: &[&str], order_preserved: bool) -> PushPlan {
    let lines = |ls: &[&str]| ls.iter().map(|l| l.to_string()).collect();
    PushPlan {
        doc_id: "d".to_string(),
        blobs_to_upload: 5,
        previous_root_hash: "old".to_string(),
        previous_generation: 7,
        new_root_hash: "new".to_string(),
        diff: RootDiff {
            old_totals: Some("0:.:1:1".to_string()),
            new_totals: Some("0:.:2:2".to_string()),
            old_entries: 1,
            new_entries: 2,
            removed: lines(removed),
            added: lines(added),
            order_preserved,
        },
    }
}

#[test]
fn dry_runs_are_reported() {
    assert_eq!(
        report_push_plan(&plan(&["r"], &["a"], false)),
        [
            "Dry run: nothing was uploaded.",
            "  doc id:            d",
            "  blobs to upload:   5",
            "  current root:      old",
            "  current gen:       7",
            "  new root would be: new",
            "Root index diff:",
            "  entry lines:       1 -> 2",
            "  totals row:        0:.:1:1 -> 0:.:2:2",
            "  lines removed:     1",
            "    - r",
            "  lines added:       1",
            "    + a",
            "  order preserved:   false",
        ]
    );
    assert_eq!(plan_verdict(&plan(&["r"], &["a"], true)), PlanVerdict::Lossy);
    assert_eq!(plan_verdict(&plan(&[], &[], true)), PlanVerdict::NotOneLine);
    assert_eq!(plan_verdict(&plan(&[], &["a", "b"], true)), PlanVerdict::NotOneLine);
    assert_eq!(plan_verdict(&plan(&[], &["a"], true)), PlanVerdict::Kept);
    assert_eq!(plan_verdict(&plan(&[], &["a"], false)), PlanVerdict::Reordered);
    assert_eq!(
        verdict_error(PlanVerdict::Lossy).unwrap().message(),
        "dry run: the rewritten root would drop existing index lines; do not push"
    );
    assert_eq!(
        verdict_error(PlanVerdict::NotOneLine).unwrap().message(),
        "dry run: expected exactly one added index line"
    );
    assert!(verdict_error(PlanVerdict::Kept).is_none());
    assert!(verdict_error(PlanVerdict::Reordered).is_none());
}

#[test]
fn uploads_are_prepared() {
    assert!(looks_like_html(" \n<html>"));
    assert!(!looks_like_html("a <b>"));
    assert!(!looks_like_html(""));
    assert_eq!(epub_file_name("A"), "A.epub");
    assert_eq!(epub_file_name("A.EPUB"), "A.EPUB");
    assert_eq!(
        child_args(
            "f".to_string(),
            Some("t".to_string()),
            None,
            Some("d".to_string()),
            WireFormat::Notebook
        ),
        ["connect-push", "f", "--title", "t", "--dir", "d", "--format", "notebook"]
    );
    assert_eq!(
        child_args("f".to_string(), None, Some("x".to_string()), None, WireFormat::Epub),
        ["connect-push", "f", "--folder", "x", "--format", "epub"]
    );
    let folder = Some("f".to_string());
    assert!(matches!(
        upload_target(Some("p".to_string()), folder.clone()),
        UploadTarget::Path(p) if p == "p"
    ));
    assert!(matches!(upload_target(None, folder), UploadTarget::Folder(f) if f == "f"));
    assert!(matches!(upload_target(None, None), UploadTarget::Root));
}

#[test]
fn frontmatter_fills_the_book() {
    let mut m = Metadata::new();
    m.insert("author".to_string(), "A".to_string());
    m.insert("lang".to_string(), "de".to_string());
    let book = EpubMeta {
        title: "T".to_string(),
        author: "x".to_string(),
        description: "y".to_string(),
        language: "en".to_string(),
        source_url: "u".to_string(),
    }
    .with_metadata(&m);
    assert_eq!(book.title, "T");
    assert_eq!(book.author, "A");
    assert_eq!(book.description, "y");
    assert_eq!(book.language, "de");
    assert_eq!(book.source_url, "u");
}

#[test]
fn uploads_are_reported() {
    let item = FileItem {
        id: "1".to_string(),
        parent: Some("p".to_string()),
        ..FileItem::default()
    };
    assert_eq!(uploaded_lines(&item, "T"), ["  ID:   1", "  Name: T", "  Parent: p"]);
    let item = FileItem {
        file_name: "N".to_string(),
        ..FileItem::default()
    };
    assert_eq!(uploaded_lines(&item, "T"), ["  Name: N"]);
}

#[test]
fn listings_hide_deleted_items() {
    let doc = |id: &str, kind: &str, parent: Option<&str>, deleted| DocumentInfo {
        id: id.to_string(),
        visible_name: "N".to_string(),
        doc_type: kind.to_string(),
        parent: parent.map(str::to_owned),
        deleted,
    };
    let docs = vec![
        doc("f", "CollectionType", None, false),
        doc("d", "DocumentType", Some("f"), false),
        doc("x", "DocumentType", None, true),
    ];
    assert_eq!(
        ls_rows(&docs, false),
        [
            format!("{:<38} {:<18} 📁 N", "f", "CollectionType"),
            format!("{:<38} {:<18} 📄 N [in: f]", "d", "DocumentType"),
        ]
    );
    assert_eq!(ls_rows(&docs, true).len(), 1);
}
