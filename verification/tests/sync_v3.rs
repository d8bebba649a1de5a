use rr::codec::{crc32c_base64, sha256_hex};
use rr::error::Error;
use rr::notebook::bundle::{assemble_bundle, BundleOptions, PagePlan};
use rr::notebook::{PageImageInput, PageInput};
use rr::sync_v3::index::{bad_index_line, sum_sizes};
use rr::sync_v3::listing::{
    document_info, fetch_outcome, metadata_entry, metadata_error, should_refetch, DocMetaBlob,
};
use rr::sync_v3::upload::{
    after_put, blob_headers, blob_reply, bearer, goog_hash, plan_push, put_error, restore_outcome,
    restore_plan, root_state, root_update_body, sends_goog_hash, signed_reply, update_reply,
    PutNext, Upload, UploadEvent, UploadRequest, UploadStage,
};
use rr::sync_v3::{
    bundle_files, diff_root, entry_for, files_url, hash_index, is_totals_row, lines_missing_from,
    parse_entry_line, parse_index, partition_listing, plan_root, push_sizes_fit, replace_or_append,
    root_url, serialize_index, split_index, validate_signed_upload_url, CloudFile, DocumentInfo,
    IndexEntry, RootState, Schema, SkippedEntry, UpdateRootOutcome, SYNC_HOST,
};
use sha2::Digest;

fn entry(hash: &str, id: &str, subfiles: u32, size: u64) -> IndexEntry {
    IndexEntry {
        hash: hash.to_string(),
        id: id.to_string(),
        subfiles,
        size,
        raw: None,
    }
}

#[test]
fn schema_round_trip() {
    assert_eq!(Schema::V3.as_str(), "3");
    assert_eq!(Schema::V4.as_str(), "4");
    assert!(matches!(Schema::from_str("3"), Ok(Schema::V3)));
    assert!(matches!(Schema::from_str("4"), Ok(Schema::V4)));
    assert!(Schema::from_str("5").is_err());
}

#[test]
fn unknown_schema_is_quoted_in_the_error() {
    let err = Schema::from_str(" 5\t").unwrap_err();
    assert_eq!(
        err.message(),
        "invalid response: unknown index schema \"5\""
    );
    assert!(matches!(Schema::from_str(" 3\r\n"), Ok(Schema::V3)));
}

#[test]
fn parse_v4_index_with_totals_row() {
    let body = b"4\n0:.:2:300\nabc:0:doc1:1:100\ndef:0:doc2:1:200\n";
    let (schema, entries) = parse_index(body).unwrap();
    assert_eq!(schema, Schema::V4);
    assert_eq!(entries.len(), 2);
    assert_eq!(entries[0].hash, "abc");
    assert_eq!(entries[0].id, "doc1");
    assert_eq!(entries[1].size, 200);
}

#[test]
fn parse_v3_index_without_totals_row() {
    let body = b"3\nabc:80000000:doc1:1:100\ndef:80000000:doc2:1:200\n";
    let (schema, entries) = parse_index(body).unwrap();
    assert_eq!(schema, Schema::V3);
    assert_eq!(entries.len(), 2);
}

#[test]
fn serialize_round_trips_through_parse() {
    let entries = vec![
        IndexEntry {
            hash: "deadbeef".repeat(8),
            id: "z.rm".into(),
            subfiles: 0,
            size: 42,
            raw: None,
        },
        IndexEntry {
            hash: "cafebabe".repeat(8),
            id: "a.rm".into(),
            subfiles: 0,
            size: 7,
            raw: None,
        },
    ];
    let body = serialize_index(Schema::V4, "docid", &entries, false);
    let (schema, parsed) = parse_index(&body).unwrap();
    assert_eq!(schema, Schema::V4);
    // Entries come back sorted by id, so a.rm before z.rm.
    assert_eq!(parsed[0].id, "a.rm");
    assert_eq!(parsed[1].id, "z.rm");
}

#[test]
fn serialized_text_is_exact() {
    let entries = vec![entry("bb", "z", 3, 42), entry("aa", "a", 0, 7)];
    let v4 = String::from_utf8(serialize_index(Schema::V4, ".", &entries, true)).unwrap();
    assert_eq!(v4, "4\n0:.:2:49\naa:0:a:0:7\nbb:0:z:3:42\n");
    let v3 = String::from_utf8(serialize_index(Schema::V3, ".", &entries, true)).unwrap();
    assert_eq!(v3, "3\naa:80000000:a:0:7\nbb:80000000:z:3:42\n");
    let doc = String::from_utf8(serialize_index(Schema::V3, "d", &entries, false)).unwrap();
    assert_eq!(doc, "3\naa:0:a:0:7\nbb:0:z:3:42\n");
    let unlabelled = String::from_utf8(serialize_index(Schema::V4, "", &entries, false)).unwrap();
    assert_eq!(unlabelled, "4\naa:0:a:0:7\nbb:0:z:3:42\n");
}

#[test]
fn entries_with_one_id_keep_their_order() {
    let entries = vec![entry("b1", "x", 0, 1), entry("aa", "a", 0, 1), entry("b2", "x", 0, 1)];
    let text = String::from_utf8(serialize_index(Schema::V3, ".", &entries, false)).unwrap();
    assert_eq!(text, "3\naa:0:a:0:1\nb1:0:x:0:1\nb2:0:x:0:1\n");
}

#[test]
fn replace_or_append_replaces_by_id() {
    let entries = vec![
        IndexEntry {
            hash: "a".into(),
            id: "1".into(),
            subfiles: 0,
            size: 1,
            raw: None,
        },
        IndexEntry {
            hash: "b".into(),
            id: "2".into(),
            subfiles: 0,
            size: 2,
            raw: None,
        },
    ];
    let updated = replace_or_append(
        entries.clone(),
        IndexEntry {
            hash: "z".into(),
            id: "2".into(),
            subfiles: 0,
            size: 99,
            raw: None,
        },
    );
    assert_eq!(updated.len(), 2);
    assert_eq!(updated.iter().find(|e| e.id == "2").unwrap().hash, "z");

    let appended = replace_or_append(
        entries,
        IndexEntry {
            hash: "c".into(),
            id: "3".into(),
            subfiles: 0,
            size: 3,
            raw: None,
        },
    );
    assert_eq!(appended.len(), 3);
    assert_eq!(appended.last().unwrap().id, "3");
}

#[test]
fn v4_hash_is_sha256_of_body() {
    let body = b"4\nabc:0:x:0:1\n";
    let entries = vec![IndexEntry {
        hash: "abc".into(),
        id: "x".into(),
        subfiles: 0,
        size: 1,
        raw: None,
    }];
    let got = hash_index(Schema::V4, &entries, body).unwrap();
    assert_eq!(got, sha256_hex(body));
}

#[test]
fn v3_hash_is_sha256_of_concatenated_decoded_child_hashes() {
    let entries = vec![
        IndexEntry {
            hash: "aa".repeat(32), // 64 hex chars, valid 32 bytes
            id: "z".into(),
            subfiles: 0,
            size: 1,
            raw: None,
        },
        IndexEntry {
            hash: "bb".repeat(32),
            id: "a".into(),
            subfiles: 0,
            size: 2,
            raw: None,
        },
    ];
    let mut h = sha2::Sha256::new();
    h.update(hex::decode("bb".repeat(32)).unwrap());
    h.update(hex::decode("aa".repeat(32)).unwrap());
    let expected = hex::encode(h.finalize());
    let got = hash_index(Schema::V3, &entries, &[]).unwrap();
    assert_eq!(got, expected);
}

#[test]
fn v3_hash_names_the_first_bad_child_hash() {
    let entries = vec![entry("zz", "b", 0, 1), entry("abc", "a", 0, 1)];
    let err = hash_index(Schema::V3, &entries, &[]).unwrap_err();
    assert_eq!(
        err.message(),
        "invalid response: bad child hash \"abc\": Odd number of digits"
    );
    let err = hash_index(Schema::V3, &[entry("zz", "b", 0, 1)], &[]).unwrap_err();
    assert_eq!(
        err.message(),
        "invalid response: bad child hash \"zz\": Invalid character 'z' at position 0"
    );
}

#[test]
fn index_does_not_depend_on_the_order_of_entries() {
    let a = vec![entry("aa", "1", 0, 1), entry("bb", "2", 0, 2), entry("cc", "3", 0, 3)];
    let b = vec![entry("cc", "3", 0, 3), entry("aa", "1", 0, 1), entry("bb", "2", 0, 2)];
    for schema in [Schema::V3, Schema::V4] {
        let x = serialize_index(schema, ".", &a, true);
        let y = serialize_index(schema, ".", &b, true);
        assert_eq!(x, y);
        assert_eq!(
            hash_index(schema, &a, &x).unwrap(),
            hash_index(schema, &b, &y).unwrap()
        );
    }
}

#[test]
fn sha256_matches_known_vector() {
    assert_eq!(
        sha256_hex(b"abc"),
        "ba7816bf8f01cfea414140de5dae2223b00361a396177a9cb410ff61f20015ad"
    );
}

#[test]
fn crc32c_matches_known_vector() {
    // From RFC 3720 Appendix B.4: CRC32C of "123456789" is 0xE3069283.
    let v = crc32c::crc32c(b"123456789");
    assert_eq!(v, 0xE306_9283);
    assert_eq!(crc32c_base64(b"123456789"), "4waSgw==");
    assert_eq!(goog_hash(b"123456789"), "crc32c=4waSgw==");
}

#[test]
fn urls_anchor_to_sync_host() {
    assert!(SYNC_HOST.contains("remarkable.com"));
    assert!(root_url().starts_with(SYNC_HOST));
    assert!(files_url("abc").starts_with(SYNC_HOST));
    assert!(files_url("abc").ends_with("/abc"));
}

#[test]
fn parse_rejects_line_with_missing_fields() {
    let body = b"4\n0:.:2:300\nabc:0:doc1:1:100\ndef:0:doc2\n";
    assert!(parse_index(body).is_err());
}

#[test]
fn parse_rejects_non_numeric_counts() {
    assert!(parse_index(b"3\nabc:80000000:doc1:one:100\n").is_err());
    assert!(parse_index(b"3\nabc:80000000:doc1:1:big\n").is_err());
}

#[test]
fn parse_errors_are_told_apart() {
    assert_eq!(
        parse_index(b"\n  \n").unwrap_err().message(),
        "invalid response: empty index blob"
    );
    assert_eq!(
        parse_index(b"9\n").unwrap_err().message(),
        "invalid response: unknown index schema \"9\""
    );
    assert_eq!(
        parse_index(b"3\na:b\tc\n").unwrap_err().message(),
        bad_index_line("a:b\tc").message()
    );
    assert_eq!(
        bad_index_line("a:b\tc").message(),
        "invalid response: index line is not <hash>:<type>:<id>:<subfiles>:<size>; refusing to \
         continue: \"a:b\\tc\""
    );
    assert!(parse_index(&[b'3', b'\n', 0xff])
        .unwrap_err()
        .message()
        .starts_with("invalid response: index blob is not utf-8: invalid utf-8 sequence"));
}

#[test]
fn entry_line_limits() {
    let e = parse_entry_line("h:t:i:4294967295:18446744073709551615").unwrap();
    assert_eq!(e.subfiles, u32::MAX);
    assert_eq!(e.size, u64::MAX);
    assert_eq!(e.raw.as_deref(), Some("h:t:i:4294967295:18446744073709551615"));
    assert!(parse_entry_line("h:t:i:4294967296:1").is_err());
    assert!(parse_entry_line("h:t:i:1:18446744073709551616").is_err());
    assert!(parse_entry_line("h:t:i:+1:007").is_ok());
    assert!(parse_entry_line("h:t:i:-1:1").is_err());
    assert!(parse_entry_line("h:t:i::1").is_err());
    assert!(parse_entry_line(":t:i:1:1").is_err());
    assert!(parse_entry_line("h:t::1:1").is_err());
    assert!(parse_entry_line("h::i:1:1").is_ok());
    assert!(parse_entry_line("h:t:i:1:1:1").is_err());
}

#[test]
fn blank_lines_and_carriage_returns_do_not_count() {
    let (schema, entries) =
        parse_index(b"\n4\r\n\r\n0:.:1:5\r\n   \nh:0:i:0:5\r\n").unwrap();
    assert_eq!(schema, Schema::V4);
    assert_eq!(entries.len(), 1);
    assert_eq!(entries[0].raw.as_deref(), Some("h:0:i:0:5"));
    // Only the line right after the schema can be a totals row.
    assert!(parse_index(b"4\nh:0:i:0:5\n0:.:1:5\n").is_err());
    assert!(parse_index(b"3\n0:.:1:5\n").is_err());
}

#[test]
fn root_rewrite_keeps_server_lines_byte_for_byte() {
    // `deadbeef` stands in for an entry type this client has never seen.
    let body = b"3\naa:80000000:doc1:4:100\nbb:deadbeef:doc2:2:200\n";
    let (schema, entries) = parse_index(body).unwrap();
    let added = replace_or_append(
        entries,
        IndexEntry {
            hash: "cc".into(),
            id: "doc3".into(),
            subfiles: 1,
            size: 5,
            raw: None,
        },
    );
    let out = String::from_utf8(serialize_index(schema, ".", &added, true)).unwrap();
    assert!(out.contains("aa:80000000:doc1:4:100\n"));
    assert!(out.contains("bb:deadbeef:doc2:2:200\n"));
    assert!(out.contains("cc:80000000:doc3:1:5\n"));
    assert_eq!(out.lines().count(), 4);
}

fn root_state_from(body: &str) -> RootState {
    let (schema, entries) = parse_index(body.as_bytes()).unwrap();
    RootState {
        schema,
        root_hash: "old".into(),
        generation: 7,
        entries,
        body: body.to_string(),
    }
}

fn one_blob_doc() -> Vec<IndexEntry> {
    vec![IndexEntry {
        hash: "ab".repeat(32),
        id: "doc9.metadata".into(),
        subfiles: 0,
        size: 10,
        raw: None,
    }]
}

#[test]
fn dry_run_diff_shows_one_added_line_and_nothing_removed() {
    let root = root_state_from("4\n0:.:2:300\naa:0:doc1:4:100\nbb:0:doc2:2:200\n");
    let planned = plan_root(&root, "doc9", &one_blob_doc()).unwrap();
    let new_body = String::from_utf8(planned.root_body).unwrap();
    let diff = diff_root(root.schema, &root.body, &new_body);
    assert!(diff.removed.is_empty());
    assert_eq!(diff.added.len(), 1);
    assert!(diff.added[0].contains(":doc9:"));
    assert!(diff.order_preserved);
    assert_eq!(diff.old_entries, 2);
    assert_eq!(diff.new_entries, 3);
    assert_eq!(diff.old_totals.as_deref(), Some("0:.:2:300"));
    assert_eq!(diff.new_totals.as_deref(), Some("0:.:3:310"));
}

#[test]
fn dry_run_diff_flags_a_reordered_index() {
    let root = root_state_from("3\nbb:80000000:zzz:2:200\naa:80000000:aaa:4:100\n");
    let planned = plan_root(&root, "mmm", &one_blob_doc()).unwrap();
    let new_body = String::from_utf8(planned.root_body).unwrap();
    let diff = diff_root(root.schema, &root.body, &new_body);
    assert!(diff.removed.is_empty());
    assert_eq!(diff.added.len(), 1);
    assert!(!diff.order_preserved);
}

#[test]
fn dry_run_diff_reports_a_dropped_line() {
    let old = "4\n0:.:2:300\naa:0:doc1:4:100\nbb:0:doc2:2:200\n";
    let new = "4\n0:.:2:210\naa:0:doc1:4:100\ncc:0:doc9:1:10\n";
    let diff = diff_root(Schema::V4, old, new);
    assert_eq!(diff.removed, vec!["bb:0:doc2:2:200".to_string()]);
    assert_eq!(diff.added, vec!["cc:0:doc9:1:10".to_string()]);
    assert!(!diff.order_preserved);
}

#[test]
fn diff_of_a_root_with_itself_is_empty() {
    let body = "4\n0:.:2:300\naa:0:doc1:4:100\nbb:0:doc2:2:200\n";
    let diff = diff_root(Schema::V4, body, body);
    assert!(diff.removed.is_empty());
    assert!(diff.added.is_empty());
    assert!(diff.order_preserved);
}

#[test]
fn plan_of_a_known_document_replaces_its_entry() {
    let root = root_state_from("4\n0:.:2:300\naa:0:doc1:4:100\nbb:0:doc2:2:200\n");
    let planned = plan_root(&root, "doc2", &one_blob_doc()).unwrap();
    assert_eq!(planned.doc_index_hash.len(), 64);
    assert_eq!(planned.root_hash, sha256_hex(&planned.root_body));
    let text = String::from_utf8(planned.root_body).unwrap();
    assert_eq!(
        text,
        format!(
            "4\n0:.:2:110\naa:0:doc1:4:100\n{}:0:doc2:1:10\n",
            planned.doc_index_hash
        )
    );
    let doc = String::from_utf8(planned.doc_body).unwrap();
    assert_eq!(
        doc,
        format!("4\n0:doc2:1:10\n{}:0:doc9.metadata:0:10\n", "ab".repeat(32))
    );
}

#[test]
fn sizes_that_do_not_fit_are_told() {
    let root = root_state_from("4\n0:.:1:18446744073709551615\naa:0:doc1:4:18446744073709551615\n");
    assert!(!push_sizes_fit(&root, "doc9", &one_blob_doc()));
    assert!(push_sizes_fit(&root, "doc1", &one_blob_doc()));
    let v3 = root_state_from("3\naa:80000000:doc1:4:18446744073709551615\n");
    assert!(push_sizes_fit(&v3, "doc9", &one_blob_doc()));
    assert_eq!(sum_sizes(&[entry("a", "b", 0, 3), entry("a", "c", 0, 4)]), Some(7));
    assert_eq!(
        sum_sizes(&[entry("a", "b", 0, u64::MAX), entry("a", "c", 0, 1)]),
        None
    );
}

#[test]
fn split_index_finds_totals_and_lines() {
    let (totals, lines) = split_index(Schema::V4, "4\n0:.:1:5\nh:0:i:0:5\n");
    assert_eq!(totals.as_deref(), Some("0:.:1:5"));
    assert_eq!(lines, vec!["h:0:i:0:5".to_string()]);
    let (totals, lines) = split_index(Schema::V3, "3\nh:0:i:0:5\n");
    assert_eq!(totals, None);
    assert_eq!(lines.len(), 1);
    let (totals, lines) = split_index(Schema::V4, "");
    assert_eq!(totals, None);
    assert!(lines.is_empty());
    assert!(is_totals_row("0:.:2:300"));
    assert!(!is_totals_row("00:.:2:300"));
    assert!(!is_totals_row("0:.:2"));
    let a = vec!["x".to_string(), "y".to_string(), "x".to_string()];
    let b = vec!["y".to_string()];
    assert_eq!(lines_missing_from(&a, &b), vec!["x".to_string(), "x".to_string()]);
}

fn doc(id: &str, name: &str, doc_type: &str) -> DocumentInfo {
    DocumentInfo {
        id: id.into(),
        visible_name: name.into(),
        doc_type: doc_type.into(),
        parent: None,
        deleted: false,
    }
}

fn skip(id: &str) -> SkippedEntry {
    SkippedEntry {
        id: id.into(),
        error: "timeout".into(),
    }
}

#[test]
fn partition_sorts_docs_and_keeps_every_skip() {
    let results = vec![
        Ok(doc("d2", "zeta", "DocumentType")),
        Err(skip("s2")),
        Ok(doc("f1", "Folder", "CollectionType")),
        Err(skip("s1")),
        Ok(doc("d1", "alpha", "DocumentType")),
    ];
    let listing = partition_listing(results);
    let ids: Vec<&str> = listing.docs.iter().map(|d| d.id.as_str()).collect();
    assert_eq!(ids, ["f1", "d1", "d2"]);
    let skipped: Vec<&str> = listing.skipped.iter().map(|s| s.id.as_str()).collect();
    assert_eq!(skipped, ["s1", "s2"]);
}

#[test]
fn partition_ignores_case_and_breaks_ties_by_id() {
    let results = vec![
        Ok(doc("3", "beta", "DocumentType")),
        Ok(doc("2", "ALPHA", "DocumentType")),
        Ok(doc("1", "Beta", "DocumentType")),
        Ok(doc("4", "ÄTHER", "DocumentType")),
        Ok(doc("5", "äther", "DocumentType")),
    ];
    let listing = partition_listing(results);
    let ids: Vec<&str> = listing.docs.iter().map(|d| d.id.as_str()).collect();
    assert_eq!(ids, ["2", "1", "3", "4", "5"]);
}

#[test]
fn partition_is_the_same_whatever_finished_first() {
    let listed = |results| {
        let listing = partition_listing(results);
        let docs: Vec<String> = listing.docs.into_iter().map(|d| d.id).collect();
        let skips: Vec<String> = listing.skipped.into_iter().map(|s| s.id).collect();
        (docs, skips)
    };
    let a = listed(vec![
        Ok(doc("b", "Notes", "DocumentType")),
        Err(skip("y")),
        Ok(doc("a", "Notes", "DocumentType")),
        Err(skip("x")),
    ]);
    let b = listed(vec![
        Err(skip("x")),
        Ok(doc("a", "Notes", "DocumentType")),
        Err(skip("y")),
        Ok(doc("b", "Notes", "DocumentType")),
    ]);
    assert_eq!(a, b);
    assert_eq!(a.0, ["a", "b"]);
    assert_eq!(a.1, ["x", "y"]);
}

#[test]
fn incomplete_summary_names_every_skipped_id() {
    let results = vec![
        Ok(doc("d1", "alpha", "DocumentType")),
        Err(skip("s1")),
        Err(skip("s2")),
    ];
    let listing = partition_listing(results);
    let summary = listing.incomplete_summary().expect("must be flagged");
    assert!(summary.starts_with("INCOMPLETE: 2 of 3 root entries"));
    assert!(summary.contains("s1"));
    assert!(summary.contains("s2"));
    assert_eq!(
        summary,
        "INCOMPLETE: 2 of 3 root entries could not be read and are not shown:\n  s1  (timeout)\n  \
         s2  (timeout)"
    );
}

#[test]
fn incomplete_summary_is_none_when_everything_was_read() {
    let results = vec![Ok(doc("d1", "alpha", "DocumentType"))];
    let listing = partition_listing(results);
    assert!(listing.incomplete_summary().is_none());
}

#[test]
fn signed_upload_url_requires_approved_https_host() {
    assert!(validate_signed_upload_url(
        "https://storage.googleapis.com/bucket/object?signature=test"
    )
    .is_ok());
    assert!(validate_signed_upload_url("http://storage.googleapis.com/bucket/object").is_err());
    assert!(validate_signed_upload_url("https://127.0.0.1/object").is_err());
    assert!(validate_signed_upload_url("https://example.com/object").is_err());
    assert!(validate_signed_upload_url("https://user@example.amazonaws.com/object").is_err());
}

#[test]
fn signed_upload_url_errors_name_the_reason() {
    let message = |raw: &str| validate_signed_upload_url(raw).unwrap_err().message();
    assert_eq!(
        message("not a url"),
        "invalid response: invalid signed upload URL: relative URL without a base"
    );
    assert_eq!(
        message("http://storage.googleapis.com/o"),
        "invalid response: signed upload URL must use HTTPS"
    );
    assert_eq!(
        message("https://storage.googleapis.com/o#f"),
        "invalid response: signed upload URL contains forbidden credentials or fragment"
    );
    assert_eq!(
        message("https://:pw@storage.googleapis.com/o"),
        "invalid response: signed upload URL contains forbidden credentials or fragment"
    );
    assert_eq!(
        message("https://example.com/o"),
        "invalid response: signed upload URL host is not approved: example.com"
    );
    let parts = validate_signed_upload_url("HTTPS://S3.AmazonAWS.com/a b").unwrap();
    assert_eq!(parts.text, "https://s3.amazonaws.com/a%20b");
    assert!(!sends_goog_hash(&parts.host));
    assert!(sends_goog_hash(&Some("storage.googleapis.com".to_string())));
    assert!(!sends_goog_hash(&None));
}

#[test]
fn requests_carry_the_expected_headers() {
    let h = blob_headers(b"123456789", "doc.metadata");
    assert_eq!(h.filename, "doc.metadata");
    assert_eq!(h.filesize, "9");
    assert_eq!(h.goog_hash, "crc32c=4waSgw==");
    assert_eq!(bearer("t0k"), "Bearer t0k");
    assert_eq!(
        root_update_body("ab\"c", -7),
        "{\"broadcast\":true,\"hash\":\"ab\\\"c\",\"generation\":-7}"
    );
}

#[test]
fn replies_are_read_by_status() {
    assert_eq!(blob_reply(200, vec![1, 2]).unwrap(), vec![1, 2]);
    let err = blob_reply(404, b"nope".to_vec()).unwrap_err();
    assert_eq!(err.message(), "api error: HTTP 404 – nope");
    assert!(signed_reply(204, b"").is_ok());
    assert!(signed_reply(500, b"x").unwrap_err().is_retryable());

    assert!(matches!(after_put(201, None), PutNext::Stored));
    assert!(matches!(after_put(307, Some("u".to_string())), PutNext::Follow(u) if u == "u"));
    assert!(matches!(after_put(307, None), PutNext::Failed));
    assert!(matches!(after_put(400, Some("u".to_string())), PutNext::Failed));
    assert_eq!(
        put_error(302, b"  moved \n").message(),
        "api error: HTTP 302 – redirect without Location header: moved"
    );
    assert_eq!(put_error(400, b" x ").message(), "api error: HTTP 400 –  x ");
    assert_eq!(put_error(400, &[0xff]).message(), "api error: HTTP 400 – \u{fffd}");

    assert!(matches!(
        update_reply(412, b"", None, 3),
        Ok(UpdateRootOutcome::GenerationRace)
    ));
    assert!(matches!(
        update_reply(200, b"", None, 3),
        Ok(UpdateRootOutcome::Updated { new_generation: 4 })
    ));
    assert!(matches!(
        update_reply(200, b"", Some(9), 3),
        Ok(UpdateRootOutcome::Updated { new_generation: 9 })
    ));
    assert!(update_reply(500, b"", Some(9), 3).is_err());

    let root = root_state("h".to_string(), 5, b"3\naa:80000000:doc1:4:100\n").unwrap();
    assert_eq!(root.generation, 5);
    assert_eq!(root.body, "3\naa:80000000:doc1:4:100\n");
    assert_eq!(root.entries.len(), 1);
    assert!(root_state("h".to_string(), 5, b"").is_err());
}

#[test]
fn metadata_becomes_a_listing_row() {
    let d = document_info(
        "id",
        DocMetaBlob {
            visible_name: Some("N".to_string()),
            type_field: None,
            parent: Some(String::new()),
            deleted: None,
        },
    );
    assert_eq!(d.visible_name, "N");
    assert_eq!(d.doc_type, "");
    assert_eq!(d.parent, None);
    assert!(!d.deleted);
    let d = document_info(
        "id",
        DocMetaBlob {
            visible_name: None,
            type_field: Some("CollectionType".to_string()),
            parent: Some("p".to_string()),
            deleted: Some(true),
        },
    );
    assert!(d.is_folder());
    assert_eq!(d.parent.as_deref(), Some("p"));
    assert!(d.deleted);

    let entries = vec![entry("a", "d.content", 0, 1), entry("b", "d.metadata", 0, 1)];
    assert_eq!(metadata_entry("d", &entries).unwrap().hash, "b");
    assert_eq!(
        metadata_entry("d", &entries[..1]).unwrap_err().message(),
        "invalid response: doc d has no .metadata entry"
    );
    assert_eq!(
        metadata_error("d", "eof").message(),
        "invalid response: decode metadata for d: eof"
    );
}

#[test]
fn only_mendable_errors_are_fetched_again() {
    assert!(should_refetch(&Err(Error::Api {
        status: 503,
        body: String::new()
    })));
    assert!(!should_refetch(&Err(Error::Api {
        status: 404,
        body: String::new()
    })));
    assert!(!should_refetch(&Ok(doc("d", "n", "t"))));
    let kept = fetch_outcome("s", Err(Error::Cancelled)).unwrap_err();
    assert_eq!(kept.id, "s");
    assert_eq!(kept.error, "operation cancelled");
    assert_eq!(fetch_outcome("d", Ok(doc("d", "n", "t"))).unwrap().id, "d");
}

fn file(name: &str, bytes: &[u8]) -> CloudFile {
    CloudFile {
        cloud_name: name.to_string(),
        bytes: bytes.to_vec(),
    }
}

#[test]
fn a_push_plan_reports_the_diff() {
    let root = root_state_from("4\n0:.:1:100\naa:0:doc1:4:100\n");
    let files = vec![file("doc9.metadata", b"abc"), file("doc9.content", b"")];
    let plan = plan_push(&root, "doc9", &files).unwrap();
    assert_eq!(plan.doc_id, "doc9");
    assert_eq!(plan.blobs_to_upload, 4);
    assert_eq!(plan.previous_root_hash, "old");
    assert_eq!(plan.previous_generation, 7);
    assert_eq!(plan.new_root_hash.len(), 64);
    assert!(plan.diff.removed.is_empty());
    assert_eq!(plan.diff.added.len(), 1);
    assert!(plan.diff.added[0].ends_with(":0:doc9:2:3"));
    let e = entry_for(&files[0]);
    assert_eq!(e.hash, sha256_hex(b"abc"));
    assert_eq!(e.size, 3);
}

#[test]
fn a_dry_run_shows_what_a_push_uploads() {
    let body = "4\n0:.:1:100\naa:0:doc1:4:100\n";
    let plan = plan_push(&root_state_from(body), "d", &vec![file("d.metadata", b"m")]).unwrap();
    let mut u = Upload::start("d".to_string(), vec![file("d.metadata", b"m")]);
    let mut stored = 0;
    let mut swapped = String::new();
    let mut root_body = Vec::new();
    loop {
        let event = match u.request() {
            None => break,
            Some(UploadRequest::Store { bytes, .. }) => {
                stored += 1;
                root_body = bytes.clone();
                UploadEvent::Stored
            }
            Some(UploadRequest::Load) => UploadEvent::Loaded(root_state_from(body)),
            Some(UploadRequest::Swap { hash, .. }) => {
                swapped = hash.to_string();
                UploadEvent::Swapped(UpdateRootOutcome::Updated { new_generation: 8 })
            }
        };
        u = u.step(event);
    }
    assert_eq!(plan.blobs_to_upload, stored);
    assert_eq!(plan.new_root_hash, swapped);
    let new_body = String::from_utf8(root_body).unwrap();
    assert_eq!(plan.diff, diff_root(Schema::V4, body, &new_body));
}

#[test]
fn a_rewrite_keeps_the_lines_of_other_documents() {
    let root = root_state_from("3\naa:80000000:doc1:4:100\nbb:feed:doc2:2:200\n");
    let planned = plan_root(&root, "doc1", &one_blob_doc()).unwrap();
    let text = String::from_utf8(planned.root_body).unwrap();
    let lines: Vec<&str> = text.lines().collect();
    assert_eq!(lines.len(), 3);
    assert_eq!(lines[1], format!("{}:80000000:doc1:1:10", planned.doc_index_hash));
    assert_eq!(lines[2], "bb:feed:doc2:2:200");
}

#[test]
fn a_restore_plan_compares_with_the_target() {
    let root = root_state_from("4\n0:.:1:100\naa:0:doc1:4:100\n");
    let plan = restore_plan(&root, "t", b"3\nbb:80000000:doc2:1:5\n").unwrap();
    assert_eq!(plan.current_entries, 1);
    assert_eq!(plan.target_entries, 1);
    assert!(plan.schema_changed);
    assert_eq!(plan.diff.removed, vec!["aa:0:doc1:4:100".to_string()]);
    assert_eq!(plan.diff.added, vec!["bb:80000000:doc2:1:5".to_string()]);
    assert!(restore_plan(&root, "t", b"3\nbad\n").is_err());
    assert_eq!(
        restore_outcome(UpdateRootOutcome::Updated { new_generation: 8 }).unwrap(),
        8
    );
    assert_eq!(
        restore_outcome(UpdateRootOutcome::GenerationRace)
            .unwrap_err()
            .message(),
        "root changed since the plan was made; re-run root-restore"
    );
}

fn store_name(u: &Upload) -> String {
    match u.request() {
        Some(UploadRequest::Store { name, .. }) => name,
        Some(UploadRequest::Load) => "load".to_string(),
        Some(UploadRequest::Swap { .. }) => "swap".to_string(),
        None => "end".to_string(),
    }
}

#[test]
fn an_upload_stores_then_swaps() {
    let files = vec![file("d.metadata", b"m"), file("d.content", b"c")];
    let mut u = Upload::start("d".to_string(), files);
    let mut names = Vec::new();
    for _ in 0..20 {
        let name = store_name(&u);
        let event = match name.as_str() {
            "end" => {
                names.push(name);
                break;
            }
            "load" => UploadEvent::Loaded(root_state_from("4\n0:.:0:0\n")),
            "swap" => UploadEvent::Swapped(UpdateRootOutcome::Updated { new_generation: 8 }),
            _ => UploadEvent::Stored,
        };
        names.push(name);
        u = u.step(event);
    }
    assert_eq!(
        names,
        ["d.metadata", "d.content", "load", "d.docSchema", "root.docSchema", "swap", "end"]
    );
    let UploadStage::Done(done) = u.stage else {
        panic!("the upload must be done");
    };
    assert_eq!(done.doc_id, "d");
    assert_eq!(done.new_generation, 8);
    assert_eq!(done.previous_root_hash, "old");
    assert_eq!(done.previous_generation, 7);
}

#[test]
fn an_upload_gives_up_after_three_races() {
    let mut u = Upload::start("d".to_string(), Vec::new());
    let mut loads = 0;
    for _ in 0..40 {
        let event = match store_name(&u).as_str() {
            "end" => break,
            "load" => {
                loads += 1;
                UploadEvent::Loaded(root_state_from("4\n0:.:0:0\n"))
            }
            "swap" => UploadEvent::Swapped(UpdateRootOutcome::GenerationRace),
            _ => UploadEvent::Stored,
        };
        u = u.step(event);
    }
    assert_eq!(loads, 3);
    let UploadStage::Failed(e) = u.stage else {
        panic!("the upload must have failed");
    };
    assert_eq!(e.message(), "root generation race after 3 retries — try again");
}

#[test]
fn an_upload_stops_at_the_first_error() {
    let u = Upload::start("d".to_string(), vec![file("d.metadata", b"m")]);
    let u = u.step(UploadEvent::Failed(Error::Cancelled));
    assert!(u.request().is_none());
    assert!(matches!(u.stage, UploadStage::Failed(Error::Cancelled)));
}

#[test]
fn a_bundle_is_flattened_into_its_files() {
    let image = PageImageInput {
        png_bytes: vec![1, 2, 3],
        x: 0,
        y: 0,
        w: 0,
        h: 0,
    };
    let page = PageInput {
        markdown: String::new(),
        images: vec![image],
    };
    let opts = BundleOptions::new("T", vec![page]);
    let plans = vec![PagePlan {
        uuid: "p1".to_string(),
        scroll_time: "s".to_string(),
        image_names: vec!["i1.png".to_string()],
    }];
    let bundle = assemble_bundle(&opts, &plans, &vec![vec![9, 9]], 1, 2);
    let files = bundle_files(&bundle);
    let doc = &opts.doc_uuid;
    let names: Vec<&str> = files.iter().map(|f| f.cloud_name.as_str()).collect();
    assert_eq!(
        names,
        [
            format!("{doc}.metadata"),
            format!("{doc}.content"),
            format!("{doc}.pagedata"),
            format!("{doc}/p1.rm"),
            format!("{doc}/p1-metadata.json"),
            format!("{doc}/p1/i1.png"),
        ]
    );
    assert_eq!(files[2].bytes, b"Blank\n");
    assert_eq!(files[3].bytes, vec![9, 9]);
    assert_eq!(files[5].bytes, vec![1, 2, 3]);
    let paths = bundle.layout();
    assert_eq!(paths.metadata, names[0]);
    assert_eq!(paths.pages[0].rm, names[3]);
    assert_eq!(paths.pages[0].metadata, names[4]);
    assert_eq!(paths.pages[0].images, vec![names[5].to_string()]);
}
