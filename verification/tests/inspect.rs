use rr::error::Error;
use rr::sync_v3::inspect::{
    doc_schema_name, find_entry, inspected_blob, inspection, is_json_blob, json_entries, Inspect,
    InspectEvent, InspectRequest, InspectStage, Inspection,
};
use rr::sync_v3::listing::metadata_request;
use rr::sync_v3::upload::root_state;
use rr::sync_v3::IndexEntry;

fn entry(id: &str) -> IndexEntry {
    IndexEntry {
        hash: "ab".repeat(32),
        id: id.to_string(),
        subfiles: 0,
        size: 1,
        raw: None,
    }
}

#[test]
fn find_entry_returns_the_matching_id() {
    let entries = vec![entry("doc-one"), entry("doc-two")];
    let found = find_entry(&entries, "doc-two").unwrap();
    assert_eq!(found.id, "doc-two");
}

#[test]
fn find_entry_refuses_an_unknown_id() {
    let entries = vec![entry("doc-one")];
    let err = find_entry(&entries, "zz-9").unwrap_err();
    assert!(err.message().contains("zz-9"));
}

#[test]
fn json_entries_keeps_metadata_and_content_only() {
    let doc = vec![
        entry("d.content"),
        entry("d.metadata"),
        entry("d.pagedata"),
        entry("d/page-one.rm"),
    ];
    let kept = json_entries(&doc);
    assert_eq!(kept.len(), 2);
    assert_eq!(kept[0].id, "d.content");
    assert_eq!(kept[1].id, "d.metadata");
    assert!(!is_json_blob("metadata"));
}

#[test]
fn an_inspection_reports_what_was_read() {
    let mut e = entry("doc");
    e.raw = Some("line".to_string());
    let blob = inspected_blob(&entry("doc.content"), b"{}");
    assert_eq!(blob.name, "doc.content");
    assert_eq!(blob.body, "{}");
    let i = inspection("root".to_string(), Some(4), 9, &e, &[b'3', 0xff], vec![blob]);
    assert_eq!(i.root_line, "line");
    assert_eq!(i.root_entries, 9);
    assert_eq!(i.generation, Some(4));
    assert_eq!(i.doc_index_body, "3\u{fffd}");
    assert_eq!(i.blobs.len(), 1);
    assert_eq!(doc_schema_name("doc"), "doc.docSchema");
    let local = inspection("root".to_string(), None, 0, &entry("doc"), b"", vec![]);
    assert_eq!(local.root_line, "");
}

const ROOT: &[u8] = b"3\naa:80000000:doc:3:30\nbb:80000000:other:1:5\n";
const INDEX: &[u8] = b"3\nc1:0:doc.content:0:2\np1:0:doc.pagedata:0:6\nm1:0:doc.metadata:0:4\n";

fn blob(hash: &str) -> Vec<u8> {
    match hash {
        "root" => ROOT.to_vec(),
        "aa" => INDEX.to_vec(),
        "c1" => b"{}".to_vec(),
        "m1" => b"{ }\n".to_vec(),
        other => panic!("unexpected read of {other}"),
    }
}

/// Runs an inspection against the blobs above and lists its requests.
fn run(id: &str, root_hash: Option<&str>) -> (Vec<String>, Result<Inspection, Error>) {
    let mut inspect = Inspect::start(id.to_string(), root_hash.map(str::to_owned));
    let mut seen = Vec::new();
    loop {
        let answer = match inspect.request() {
            None => break,
            Some(InspectRequest::Root) => {
                seen.push("root".to_string());
                InspectEvent::Root(root_state("root".to_string(), 7, ROOT).unwrap())
            }
            Some(InspectRequest::Blob { hash, name }) => {
                seen.push(name);
                InspectEvent::Blob(blob(hash))
            }
        };
        inspect = inspect.step(answer);
    }
    match inspect.stage {
        InspectStage::Done(report) => (seen, Ok(report)),
        InspectStage::Failed(e) => (seen, Err(e)),
        _ => panic!("the inspection has no request left"),
    }
}

#[test]
fn an_inspection_reads_root_index_and_json_blobs() {
    let (seen, report) = run("doc", None);
    assert_eq!(seen, ["root", "doc.docSchema", "doc.content", "doc.metadata"]);
    let report = report.unwrap();
    assert_eq!(report.root_hash, "root");
    assert_eq!(report.generation, Some(7));
    assert_eq!(report.root_entries, 2);
    assert_eq!(report.root_line, "aa:80000000:doc:3:30");
    assert_eq!(report.doc_index_hash, "aa");
    assert_eq!(report.doc_index_body.as_bytes(), INDEX);
    let bodies: Vec<&str> = report.blobs.iter().map(|b| b.body.as_str()).collect();
    assert_eq!(bodies, ["{}", "{ }\n"]);
    assert_eq!(report.blobs[1].hash, "m1");
}

#[test]
fn an_inspection_of_an_older_root_has_no_generation() {
    let (seen, report) = run("doc", Some("root"));
    assert_eq!(seen[0], "root.docSchema");
    assert_eq!(report.unwrap().generation, None);
}

#[test]
fn an_inspection_ends_at_the_first_error() {
    let (seen, report) = run("zz-9", None);
    assert_eq!(seen, ["root"]);
    assert_eq!(report.unwrap_err().message(), "id zz-9 is not in that root");
    let i = Inspect::start("doc".to_string(), Some("h".to_string()));
    let i = i.step(InspectEvent::Blob(b"3\nbad\n".to_vec()));
    assert!(matches!(i.stage, InspectStage::Failed(Error::InvalidResponse(_))));
    let i = Inspect::start("doc".to_string(), None).step(InspectEvent::Failed(Error::Cancelled));
    assert!(matches!(i.stage, InspectStage::Failed(Error::Cancelled)));
    assert!(i.request().is_none());
}

#[test]
fn an_item_without_json_blobs_is_reported_at_once() {
    let i = Inspect::start("doc".to_string(), Some("h".to_string()));
    let i = i.step(InspectEvent::Blob(ROOT.to_vec()));
    let i = i.step(InspectEvent::Blob(b"3\np1:0:doc.pagedata:0:6\n".to_vec()));
    assert!(matches!(i.stage, InspectStage::Done(r) if r.blobs.is_empty()));
}

#[test]
fn metadata_is_looked_up_in_the_document_index() {
    let (hash, name) = metadata_request("doc", INDEX).unwrap();
    assert_eq!((hash.as_str(), name.as_str()), ("m1", "doc.metadata"));
    assert_eq!(
        metadata_request("doc", b"3\nc1:0:doc.content:0:2\n").unwrap_err().message(),
        "invalid response: doc doc has no .metadata entry"
    );
    assert!(metadata_request("doc", b"").is_err());
}
