//! Laws of the document API: request metadata, addresses, and the walk down a
//! folder path.

use vstd::prelude::*;

use crate::cloud_api::{
    first_folder, is_folder_named, joined_url, json_list, meta_json, path_names, trim_slashes,
    FileItem, PathWalk,
};
use crate::codec::json_string;
use crate::notebook::bundle_laws::{holds_in_order, lemma_longer_text, lemma_one_more_part};
use crate::text::starts_with;

verus! {

/// The metadata of a request names the file, and the parent, the orientation
/// and the conversion where they are given, in this order; without them it
/// says nothing else.
pub proof fn law_metadata_says_what_is_given(
    name: Seq<char>,
    parent: Seq<char>,
    orientation: Seq<char>,
    convert: bool,
)
    ensures
        holds_in_order(
            meta_json(name, Some(parent), Some(orientation), Some(convert)),
            seq![
                json_string(name),
                json_string(parent),
                json_string(orientation),
                if convert {
                    ",\"convert\":true"@
                } else {
                    ",\"convert\":false"@
                },
            ],
        ),
        holds_in_order(
            meta_json(name, Some(parent), None, None),
            seq![json_string(name), json_string(parent)],
        ),
        meta_json(name, None, None, None) == "{\"file_name\":"@ + json_string(name) + "}"@,
        meta_json(name, None, None, None).len() < meta_json(name, Some(parent), None, None).len(),
        meta_json(name, None, None, None).len() < meta_json(
            name,
            None,
            Some(orientation),
            None,
        ).len(),
        meta_json(name, None, None, None).len() < meta_json(name, None, None, Some(convert)).len(),
        meta_json(name, None, None, Some(true)) != meta_json(name, None, None, Some(false)),
{
    let e = Seq::<char>::empty();
    let none = Seq::<Seq<char>>::empty();
    let g0 = "{\"file_name\":"@;
    let n = json_string(name);
    lemma_one_more_part(e, none, g0, n);
    assert(e + g0 =~= g0);
    let t0 = g0 + n;
    let s0 = none.push(n);
    let p = json_string(parent);
    lemma_part(t0, s0, ",\"parent\":"@, p);
    let t1 = t0 + (",\"parent\":"@ + p);
    let s1 = s0.push(p);
    let o = json_string(orientation);
    lemma_part(t1, s1, ",\"orientation\":"@, o);
    let t2 = t1 + (",\"orientation\":"@ + o);
    let s2 = s1.push(o);
    let c = if convert {
        ",\"convert\":true"@
    } else {
        ",\"convert\":false"@
    };
    lemma_part(t2, s2, e, c);
    assert(e + c =~= c);
    let t3 = t2 + c;
    let s3 = s2.push(c);
    lemma_longer_text(t3, "}"@, s3);
    assert(s3 =~= seq![n, p, o, c]);
    assert(t1 + e + e + "}"@ =~= t1 + "}"@);
    lemma_longer_text(t1, "}"@, s1);
    assert(s1 =~= seq![n, p]);
    assert(t0 + e + e + e + "}"@ =~= g0 + n + "}"@);
    reveal_strlit(",\"parent\":");
    reveal_strlit(",\"orientation\":");
    reveal_strlit(",\"convert\":true");
    reveal_strlit(",\"convert\":false");
    let yes = meta_json(name, None, None, Some(true));
    let no = meta_json(name, None, None, Some(false));
    assert(yes.len() != no.len());
}

proof fn lemma_part(a: Seq<char>, ps: Seq<Seq<char>>, gap: Seq<char>, part: Seq<char>)
    requires
        holds_in_order(a, ps),
    ensures
        holds_in_order(a + (gap + part), ps.push(part)),
{
    lemma_one_more_part(a, ps, gap, part);
    assert(a + gap + part =~= a + (gap + part));
}

/// The body of a deletion lists every hash, in order.
pub proof fn law_deletion_lists_every_hash(hashes: Seq<Seq<char>>)
    ensures
        holds_in_order(
            json_list(hashes),
            hashes.map_values(|h: Seq<char>| json_string(h)),
        ),
    decreases hashes.len(),
{
    let f = |h: Seq<char>| json_string(h);
    let e = Seq::<char>::empty();
    if hashes.len() > 0 {
        let d = hashes.drop_last();
        let h = json_string(hashes.last());
        law_deletion_lists_every_hash(d);
        assert(hashes.map_values(f) =~= d.map_values(f).push(h));
        if hashes.len() == 1 {
            assert(d =~= Seq::<Seq<char>>::empty());
            lemma_one_more_part(e, d.map_values(f), e, h);
            assert(e + e + h =~= h);
        } else {
            lemma_one_more_part(json_list(d), d.map_values(f), ","@, h);
        }
    }
}

/// A base address loses its trailing slashes and nothing else.
pub proof fn law_only_slashes_come_off(base: Seq<char>, n: nat)
    requires
        base.len() == 0 || base.last() != '/',
    ensures
        trim_slashes(base + Seq::new(n, |i: int| '/')) == base,
    decreases n,
{
    let s = base + Seq::new(n, |i: int| '/');
    if n == 0 {
        assert(s =~= base);
    } else {
        assert(s.last() == '/');
        assert(s.drop_last() =~= base + Seq::new((n - 1) as nat, |i: int| '/'));
        law_only_slashes_come_off(base, (n - 1) as nat);
    }
}

/// A path is put behind a base address with exactly one slash between them,
/// however many slashes the base ends in and whether or not the path begins
/// with one.
pub proof fn law_one_slash_between(base: Seq<char>, n: nat, path: Seq<char>)
    requires
        base.len() == 0 || base.last() != '/',
        path.len() == 0 || path[0] != '/',
    ensures
        joined_url(base + Seq::new(n, |i: int| '/'), path) == base + seq!['/'] + path,
        joined_url(base + Seq::new(n, |i: int| '/'), seq!['/'] + path) == base + seq!['/'] + path,
{
    law_only_slashes_come_off(base, n);
    reveal_strlit("/");
    assert("/"@ =~= seq!['/']);
    assert((seq!['/'] + path).take(1) =~= "/"@);
    assert(!starts_with(path, "/"@)) by {
        if starts_with(path, "/"@) {
            assert(path.take(1)[0] == '/');
        }
    }
    assert(base + (seq!['/'] + path) =~= base + seq!['/'] + path);
}

/// The names on a path are its non-empty parts, in order.
pub proof fn law_path_names(a: Seq<Seq<char>>, b: Seq<Seq<char>>, p: Seq<char>)
    ensures
        path_names(a + b) == path_names(a) + path_names(b),
        p.len() > 0 ==> path_names(seq![p]) == seq![p],
        p.len() == 0 ==> path_names(seq![p]).len() == 0,
    decreases b.len(),
{
    let none = Seq::<Seq<char>>::empty();
    assert(seq![p].drop_last() =~= none);
    assert(path_names(none) =~= none);
    assert(none.push(p) =~= seq![p]);
    if b.len() == 0 {
        assert(a + b =~= a);
        assert(path_names(a) + path_names(b) =~= path_names(a));
    } else {
        law_path_names(a, b.drop_last(), p);
        assert((a + b).drop_last() =~= a + b.drop_last());
        assert(path_names(a + b) =~= path_names(a) + path_names(b));
    }
}

/// A walk down a path asks for its names in order, the first at the top level
/// and each other one under the folder that was found or created for the name
/// before it; it ends behind the last name, at the folder of that name.
pub proof fn law_walk_goes_down_the_path(ws: Seq<PathWalk>, ids: Seq<String>, k: int)
    requires
        ws.len() == ids.len() + 1,
        ws[0].wf(),
        ws[0].resolved == 0,
        ids.len() <= ws[0].names@.len(),
        forall|i: int| 0 <= i < ids.len() ==> ws[i].goes_on(#[trigger] ids[i], ws[i + 1]),
        0 <= k <= ids.len(),
    ensures
        k < ws[0].names@.len() ==> ws[k].asks() == Some(
            (
                ws[0].names@[k]@,
                if k == 0 {
                    None
                } else {
                    Some(ids[k - 1]@)
                },
            ),
        ),
        k == ws[0].names@.len() ==> ws[k].asks() is None && ws[k].parent == Some(ids[k - 1]),
{
    lemma_walk(ws, ids, k);
}

proof fn lemma_walk(ws: Seq<PathWalk>, ids: Seq<String>, k: int)
    requires
        ws.len() == ids.len() + 1,
        ws[0].wf(),
        ws[0].resolved == 0,
        forall|i: int| 0 <= i < ids.len() ==> ws[i].goes_on(#[trigger] ids[i], ws[i + 1]),
        0 <= k <= ids.len(),
    ensures
        ws[k].names == ws[0].names,
        ws[k].resolved == k,
        k > 0 ==> ws[k].parent == Some(ids[k - 1]),
        k == 0 ==> ws[k].parent is None,
    decreases k,
{
    if k > 0 {
        lemma_walk(ws, ids, k - 1);
        assert(ws[k - 1].goes_on(ids[k - 1], ws[k - 1 + 1]));
    }
}

/// A folder is found by its name, and by its parent where one is given: what is
/// found has both, and nothing is missed.
pub proof fn law_folder_is_found_by_name(
    files: Seq<FileItem>,
    name: Seq<char>,
    parent: Option<Seq<char>>,
)
    ensures
        first_folder(files, name, parent) matches Some(i) ==> 0 <= i < files.len()
            && files[i].file_name@ == name && (parent matches Some(p) ==> files[i].parent matches
            Some(q) && q@ == p),
        first_folder(files, name, parent) is None ==> forall|i: int|
            0 <= i < files.len() ==> (#[trigger] files[i]).file_name@ != name || (parent is Some
                && (files[i].parent is None || files[i].parent->0@ != parent->0)),
{
    crate::cloud_api::law_first_folder(files, name, parent);
    if first_folder(files, name, parent) is None {
        assert forall|i: int| 0 <= i < files.len() implies (#[trigger] files[i]).file_name@ != name
            || (parent is Some && (files[i].parent is None || files[i].parent->0@
            != parent->0)) by {
            assert(!is_folder_named(files[i], name, parent));
        }
    }
}

} // verus!
