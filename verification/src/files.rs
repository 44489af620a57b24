//! Which files a name with at most one `*` in it stands for.

use vstd::prelude::*;
use vstd::string::*;
use vstd::utf8::*;
use crate::config::ConfigError;
use crate::glob::STAR;
use crate::message;
use crate::message::copy_octets;
use crate::text::{cut, same_octets};

verus! {

/// A path, as plain values.
#[verifier::ext_equal]
pub struct PathModel {
    pub octets: Seq<u8>,
    pub parts: Seq<Seq<u8>>,
}

/// The path of a file: its octets, and the parts that it is compared by. A part starts with an
/// octet for its kind, in the order of the kinds.
#[derive(Debug)]
pub struct FilePath {
    pub octets: Vec<u8>,
    pub parts: Vec<Vec<u8>>,
}

impl View for FilePath {
    type V = PathModel;

    open spec fn view(&self) -> PathModel {
        PathModel { octets: self.octets@, parts: message::octets_of_vecs(self.parts@) }
    }
}

/// The models of some paths.
pub open spec fn paths_of(paths: Seq<FilePath>) -> Seq<PathModel> {
    Seq::new(paths.len(), |i: int| paths[i]@)
}

impl FilePath {
    /// Whether two paths are the same: part by part, however they are written.
    pub fn same(&self, other: &FilePath) -> (r: bool)
        ensures
            r == (self@.parts == other@.parts),
    {
        if self.parts.len() != other.parts.len() {
            assert(self@.parts.len() != other@.parts.len());
            return false;
        }
        let mut i: usize = 0;
        while i < self.parts.len()
            invariant
                0 <= i <= self.parts@.len(),
                self.parts@.len() == other.parts@.len(),
                forall|j: int| 0 <= j < i ==> self@.parts[j] == other@.parts[j],
            decreases self.parts@.len() - i,
        {
            if !same_octets(self.parts[i].as_slice(), other.parts[i].as_slice()) {
                assert(self@.parts[i as int] != other@.parts[i as int]);
                return false;
            }
            i = i + 1;
        }
        assert(self@.parts =~= other@.parts);
        true
    }
}

impl Clone for FilePath {
    fn clone(&self) -> (r: FilePath)
        ensures
            r@ == self@,
    {
        let mut parts: Vec<Vec<u8>> = Vec::new();
        let mut i: usize = 0;
        while i < self.parts.len()
            invariant
                0 <= i <= self.parts@.len(),
                message::octets_of_vecs(parts@) == message::octets_of_vecs(self.parts@).take(i as int),
            decreases self.parts@.len() - i,
        {
            let ghost done = message::octets_of_vecs(parts@);
            let part: Vec<u8> = copy_octets(self.parts[i].as_slice());
            parts.push(part);
            assert(message::octets_of_vecs(parts@) =~= done.push(part@));
            assert(message::octets_of_vecs(parts@) =~= message::octets_of_vecs(self.parts@).take(i + 1));
            i = i + 1;
        }
        assert(message::octets_of_vecs(parts@) =~= message::octets_of_vecs(self.parts@));
        FilePath { octets: copy_octets(self.octets.as_slice()), parts }
    }
}

/// Whether some octets come before others: by the first octet that differs, or else the shorter.
pub open spec fn octets_less(a: Seq<u8>, b: Seq<u8>) -> bool
    decreases a.len(),
{
    if b.len() == 0 {
        false
    } else if a.len() == 0 {
        true
    } else if a[0] != b[0] {
        a[0] < b[0]
    } else {
        octets_less(a.drop_first(), b.drop_first())
    }
}

/// Whether a path of some parts comes before another: by the first part that differs, or else the
/// shorter.
pub open spec fn parts_less(a: Seq<Seq<u8>>, b: Seq<Seq<u8>>) -> bool
    decreases a.len(),
{
    if b.len() == 0 {
        false
    } else if a.len() == 0 {
        true
    } else if a[0] != b[0] {
        octets_less(a[0], b[0])
    } else {
        parts_less(a.drop_first(), b.drop_first())
    }
}

/// Puts a path in order: behind those that it does not come before.
pub open spec fn insert_path(sorted: Seq<PathModel>, path: PathModel) -> Seq<PathModel>
    decreases sorted.len(),
{
    if sorted.len() == 0 || !parts_less(path.parts, sorted.last().parts) {
        sorted.push(path)
    } else {
        insert_path(sorted.drop_last(), path).push(sorted.last())
    }
}

/// Paths in order. Those that compare the same stay in the order that they were in.
pub open spec fn sort_paths(paths: Seq<PathModel>) -> Seq<PathModel>
    decreases paths.len(),
{
    if paths.len() == 0 {
        Seq::empty()
    } else {
        insert_path(sort_paths(paths.drop_last()), paths.last())
    }
}

fn octets_before(a: &[u8], b: &[u8]) -> (r: bool)
    ensures
        r == octets_less(a@, b@),
{
    let mut i: usize = 0;
    assert(a@.skip(0) =~= a@);
    assert(b@.skip(0) =~= b@);
    while i < a.len() && i < b.len()
        invariant
            0 <= i <= a@.len(),
            0 <= i <= b@.len(),
            octets_less(a@, b@) == octets_less(a@.skip(i as int), b@.skip(i as int)),
        decreases a@.len() - i,
    {
        assert(a@.skip(i as int).drop_first() =~= a@.skip(i + 1));
        assert(b@.skip(i as int).drop_first() =~= b@.skip(i + 1));
        if a[i] != b[i] {
            return a[i] < b[i];
        }
        i = i + 1;
    }
    i < b.len()
}

fn path_before(a: &FilePath, b: &FilePath) -> (r: bool)
    ensures
        r == parts_less(a@.parts, b@.parts),
{
    let ghost ma = a@.parts;
    let ghost mb = b@.parts;
    let mut i: usize = 0;
    assert(ma.skip(0) =~= ma);
    assert(mb.skip(0) =~= mb);
    while i < a.parts.len() && i < b.parts.len()
        invariant
            ma == a@.parts,
            mb == b@.parts,
            0 <= i <= a.parts@.len(),
            0 <= i <= b.parts@.len(),
            parts_less(ma, mb) == parts_less(ma.skip(i as int), mb.skip(i as int)),
        decreases a.parts@.len() - i,
    {
        assert(ma.skip(i as int).drop_first() =~= ma.skip(i + 1));
        assert(mb.skip(i as int).drop_first() =~= mb.skip(i + 1));
        let pa: &[u8] = a.parts[i].as_slice();
        let pb: &[u8] = b.parts[i].as_slice();
        assert(ma.skip(i as int)[0] == pa@);
        assert(mb.skip(i as int)[0] == pb@);
        if !same_octets(pa, pb) {
            return octets_before(pa, pb);
        }
        i = i + 1;
    }
    i < b.parts.len()
}

/// Puts a path in order: behind those that it does not come before.
fn insert_in_order(sorted: &mut Vec<FilePath>, path: FilePath)
    ensures
        paths_of(final(sorted)@) == insert_path(paths_of(old(sorted)@), path@),
{
    let ghost models = paths_of(sorted@);
    let ghost model = path@;
    let mut at: usize = sorted.len();
    assert(models.take(at as int) =~= models);
    assert(insert_path(models.take(at as int), model) + models.skip(at as int) =~= insert_path(models, model));
    while at > 0 && path_before(&path, &sorted[at - 1])
        invariant
            models == paths_of(sorted@),
            model == path@,
            0 <= at <= sorted@.len(),
            insert_path(models, model) == insert_path(models.take(at as int), model) + models.skip(at as int),
        decreases at,
    {
        proof {
            let head = models.take(at as int);
            assert(head.last() == sorted@[at - 1]@);
            assert(head.drop_last() =~= models.take(at - 1));
            assert(insert_path(head, model) == insert_path(models.take(at - 1), model).push(head.last()));
            assert(insert_path(models, model) =~= insert_path(models.take(at - 1), model) + models.skip(at - 1));
        }
        at = at - 1;
    }
    proof {
        let head = models.take(at as int);
        if at > 0 {
            assert(head.last() == sorted@[at - 1]@);
        }
        assert(insert_path(head, model) == head.push(model));
    }
    sorted.insert(at, path);
    assert(paths_of(sorted@) =~= insert_path(models, model));
}

/// How often an octet occurs.
pub open spec fn occurrences(octets: Seq<u8>, octet: u8) -> nat
    decreases octets.len(),
{
    if octets.len() == 0 {
        0
    } else {
        occurrences(octets.drop_last(), octet) + if octets.last() == octet {
            1nat
        } else {
            0nat
        }
    }
}

/// The files that a path stands for: itself, or those in a directory that fit around a `*`.
#[derive(Debug)]
pub enum Expansion {
    /// This file.
    One(FilePath),
    /// The files whose paths start with `prefix` and end with `suffix`. They lie in the directory
    /// `prefix`, where that is the path of one, and else in the directory that it lies in itself.
    Search { prefix: String, suffix: String, in_prefix: bool },
}

/// The files that a path stands for, given its text, where it is text. `Err` where there is more
/// than one `*`, or one in what is no text.
pub open spec fn expands_to(
    path: PathModel,
    text: Option<Seq<u8>>,
    separator: u8,
    r: Result<Expansion, ConfigError>,
) -> bool {
    let stars = occurrences(path.octets, STAR);
    match r {
        Err(ConfigError::TooManyStars(whole)) => stars > 1 && whole@ == path,
        Err(ConfigError::NotText(whole)) => stars == 1 && text is None && whole@ == path,
        Err(_) => false,
        Ok(Expansion::One(one)) => stars == 0 && one@ == path,
        Ok(Expansion::Search { prefix, suffix, in_prefix }) => {
            &&& stars == 1
            &&& text == Some(encode_utf8(prefix@) + seq![STAR] + encode_utf8(suffix@))
            &&& in_prefix <==> encode_utf8(prefix@).len() > 0 && encode_utf8(prefix@).last() == separator
        },
    }
}

/// The files that a path stands for. `text` is the path as text, where it is text; `separator`
/// ends the path of a directory.
pub fn expand_glob(path: FilePath, text: Option<&str>, separator: u8) -> (r: Result<Expansion, ConfigError>)
    requires
        text matches Some(text) ==> text.spec_bytes() == path@.octets,
    ensures
        expands_to(
            path@,
            match text {
                Some(text) => Some(text.spec_bytes()),
                None => None,
            },
            separator,
            r,
        ),
{
    let ghost octets = path@.octets;
    let mut stars: usize = 0;
    let mut star: usize = 0;
    let mut i: usize = 0;
    assert(octets.take(0) =~= Seq::<u8>::empty());
    while i < path.octets.len()
        invariant
            octets == path@.octets,
            0 <= i <= octets.len(),
            stars <= i,
            stars == occurrences(octets.take(i as int), STAR),
            stars > 0 ==> star < i && octets[star as int] == STAR,
        decreases octets.len() - i,
    {
        assert(octets.take(i + 1).drop_last() =~= octets.take(i as int));
        if path.octets[i] == STAR {
            stars = stars + 1;
            star = i;
        }
        i = i + 1;
    }
    assert(octets.take(i as int) =~= octets);
    if stars == 0 {
        return Ok(Expansion::One(path));
    }
    if stars > 1 {
        return Err(ConfigError::TooManyStars(path));
    }
    let text: &str = match text {
        Some(text) => text,
        None => return Err(ConfigError::NotText(path)),
    };
    let len: usize = text.as_bytes().len();
    let prefix: &str = cut(text, 0, star);
    let suffix: &str = cut(text, star + 1, len);
    assert(prefix.spec_bytes() + seq![STAR] + suffix.spec_bytes() =~= text.spec_bytes());
    let bytes: &[u8] = prefix.as_bytes();
    let in_prefix: bool = bytes.len() > 0 && bytes[bytes.len() - 1] == separator;
    Ok(Expansion::Search { prefix: prefix.to_owned(), suffix: suffix.to_owned(), in_prefix })
}

/// The files that a file named in another one stands for: by its own path, where that is absolute,
/// and else by `joined`, its path from the directory of the file that names it.
pub fn resolve_include_paths(
    named: FilePath,
    absolute: bool,
    joined: FilePath,
    text: Option<&str>,
    separator: u8,
) -> (r: Result<Expansion, ConfigError>)
    requires
        text matches Some(text) ==> text.spec_bytes() == (if absolute {
            named@.octets
        } else {
            joined@.octets
        }),
    ensures
        expands_to(
            if absolute {
                named@
            } else {
                joined@
            },
            match text {
                Some(text) => Some(text.spec_bytes()),
                None => None,
            },
            separator,
            r,
        ),
{
    let resolved: FilePath = if absolute {
        named
    } else {
        joined
    };
    expand_glob(resolved, text, separator)
}

/// A file that a directory holds, as plain values.
#[verifier::ext_equal]
pub struct FoundModel {
    pub path: PathModel,
    pub text: Option<Seq<u8>>,
}

/// A file that a directory holds.
#[derive(Debug)]
pub struct Found {
    pub path: FilePath,
    /// The path as text, where it is text.
    pub text: Option<String>,
}

impl View for Found {
    type V = FoundModel;

    open spec fn view(&self) -> FoundModel {
        FoundModel {
            path: self.path@,
            text: match self.text {
                Some(text) => Some(encode_utf8(text@)),
                None => None,
            },
        }
    }
}

/// The models of some files.
pub open spec fn all_found(found: Seq<Found>) -> Seq<FoundModel> {
    Seq::new(found.len(), |i: int| found[i]@)
}

/// Whether text starts with `prefix` and ends with `suffix`.
pub open spec fn fits(text: Seq<u8>, prefix: Seq<u8>, suffix: Seq<u8>) -> bool {
    &&& prefix.len() <= text.len() && text.take(prefix.len() as int) == prefix
    &&& suffix.len() <= text.len() && text.skip(text.len() - suffix.len()) == suffix
}

/// The paths of the files that fit, in the order that they are found in.
pub open spec fn fitting(found: Seq<FoundModel>, prefix: Seq<u8>, suffix: Seq<u8>) -> Seq<PathModel>
    decreases found.len(),
{
    if found.len() == 0 {
        Seq::empty()
    } else {
        let init = fitting(found.drop_last(), prefix, suffix);
        match found.last().text {
            Some(text) if fits(text, prefix, suffix) => init.push(found.last().path),
            _ => init,
        }
    }
}

/// Whether text starts with `prefix` and ends with `suffix`.
fn text_fits(text: &str, prefix: &str, suffix: &str) -> (r: bool)
    ensures
        r == fits(text.spec_bytes(), prefix.spec_bytes(), suffix.spec_bytes()),
{
    let whole: &[u8] = text.as_bytes();
    let head: &[u8] = prefix.as_bytes();
    let tail: &[u8] = suffix.as_bytes();
    if head.len() > whole.len() || tail.len() > whole.len() {
        return false;
    }
    let start: &[u8] = vstd::slice::slice_subrange(whole, 0, head.len());
    let end: &[u8] = vstd::slice::slice_subrange(whole, whole.len() - tail.len(), whole.len());
    assert(start@ =~= whole@.take(head@.len() as int));
    assert(end@ =~= whole@.skip(whole@.len() - tail@.len()));
    same_octets(start, head) && same_octets(end, tail)
}

/// The paths of the files that fit, in order. A directory that is not there, `None`, holds none.
pub fn matching_files(found: Option<Vec<Found>>, prefix: &str, suffix: &str) -> (r: Vec<FilePath>)
    ensures
        found matches Some(found) ==> paths_of(r@) == sort_paths(
            fitting(all_found(found@), prefix.spec_bytes(), suffix.spec_bytes()),
        ),
        found is None ==> r@.len() == 0,
{
    let found: Vec<Found> = match found {
        Some(found) => found,
        None => return Vec::new(),
    };
    let ghost models = all_found(found@);
    let mut out: Vec<FilePath> = Vec::new();
    assert(models.take(0) =~= Seq::<FoundModel>::empty());
    assert(paths_of(out@) =~= Seq::<PathModel>::empty());
    for file in it: found
        invariant
            models == all_found(it.seq()),
            paths_of(out@) == sort_paths(
                fitting(models.take(it.index() as int), prefix.spec_bytes(), suffix.spec_bytes()),
            ),
    {
        let ghost i = it.index() as int;
        proof {
            assert(models[i] == file@);
            assert(models.take(i + 1).drop_last() =~= models.take(i));
            assert(models.take(i + 1).last() == file@);
            let init = fitting(models.take(i), prefix.spec_bytes(), suffix.spec_bytes());
            assert(init.push(file@.path).drop_last() =~= init);
        }
        if let Some(text) = &file.text {
            if text_fits(text.as_str(), prefix, suffix) {
                insert_in_order(&mut out, file.path);
            }
        }
    }
    assert(models.take(models.len() as int) =~= models);
    out
}

proof fn lemma_octets_order(a: Seq<u8>, b: Seq<u8>, c: Seq<u8>)
    ensures
        octets_less(a, b) ==> !octets_less(b, a),
        a != b ==> octets_less(a, b) || octets_less(b, a),
        octets_less(a, b) && octets_less(b, c) ==> octets_less(a, c),
    decreases a.len(),
{
    if a.len() > 0 && b.len() > 0 {
        if c.len() > 0 {
            lemma_octets_order(a.drop_first(), b.drop_first(), c.drop_first());
        } else {
            lemma_octets_order(a.drop_first(), b.drop_first(), c);
        }
        if a[0] == b[0] && a != b {
            assert(a.drop_first() != b.drop_first()) by {
                if a.drop_first() == b.drop_first() {
                    assert(a =~= seq![a[0]] + a.drop_first());
                    assert(b =~= seq![b[0]] + b.drop_first());
                }
            }
        }
    } else if a.len() == 0 && b.len() == 0 {
        assert(a =~= b);
    }
}

proof fn lemma_parts_order(a: Seq<Seq<u8>>, b: Seq<Seq<u8>>, c: Seq<Seq<u8>>)
    ensures
        parts_less(a, b) ==> !parts_less(b, a),
        a != b ==> parts_less(a, b) || parts_less(b, a),
        parts_less(a, b) && parts_less(b, c) ==> parts_less(a, c),
    decreases a.len(),
{
    if a.len() > 0 && b.len() > 0 {
        if c.len() > 0 {
            lemma_parts_order(a.drop_first(), b.drop_first(), c.drop_first());
            lemma_octets_order(a[0], b[0], c[0]);
            lemma_octets_order(b[0], c[0], a[0]);
        } else {
            lemma_parts_order(a.drop_first(), b.drop_first(), c);
            lemma_octets_order(a[0], b[0], a[0]);
        }
        if a[0] == b[0] && a != b {
            assert(a.drop_first() != b.drop_first()) by {
                if a.drop_first() == b.drop_first() {
                    assert(a =~= seq![a[0]] + a.drop_first());
                    assert(b =~= seq![b[0]] + b.drop_first());
                }
            }
        }
    } else if a.len() == 0 && b.len() == 0 {
        assert(a =~= b);
    }
}

/// Whether no path comes before one that stands left of it.
pub open spec fn in_order(paths: Seq<PathModel>) -> bool {
    forall|i: int, j: int|
        0 <= i < j < paths.len() ==> !parts_less((#[trigger] paths[j]).parts, (#[trigger] paths[i]).parts)
}

proof fn lemma_insert_in_order(sorted: Seq<PathModel>, path: PathModel)
    requires
        in_order(sorted),
    ensures
        in_order(insert_path(sorted, path)),
        insert_path(sorted, path).to_multiset() == sorted.to_multiset().insert(path),
        insert_path(sorted, path).len() == sorted.len() + 1,
        forall|i: int|
            0 <= i < insert_path(sorted, path).len() ==> #[trigger] insert_path(sorted, path)[i] == path
                || sorted.contains(insert_path(sorted, path)[i]),
    decreases sorted.len(),
{
    broadcast use vstd::seq_lib::group_to_multiset_ensures;

    let r = insert_path(sorted, path);
    if sorted.len() == 0 || !parts_less(path.parts, sorted.last().parts) {
        assert forall|i: int, j: int| 0 <= i < j < r.len() implies !parts_less(
            (#[trigger] r[j]).parts,
            (#[trigger] r[i]).parts,
        ) by {
            if j == sorted.len() && i < sorted.len() - 1 {
                assert(!parts_less(sorted[sorted.len() - 1].parts, sorted[i].parts));
                lemma_parts_order(path.parts, sorted[i].parts, sorted.last().parts);
                lemma_parts_order(sorted[i].parts, sorted.last().parts, path.parts);
                lemma_parts_order(sorted.last().parts, path.parts, sorted[i].parts);
            }
        }
        assert forall|i: int| 0 <= i < r.len() implies #[trigger] r[i] == path || sorted.contains(r[i]) by {
            if i < sorted.len() {
                assert(sorted[i] == r[i]);
            }
        }
    } else {
        let init = sorted.drop_last();
        lemma_insert_in_order(init, path);
        let inner = insert_path(init, path);
        assert forall|i: int| 0 <= i < r.len() implies #[trigger] r[i] == path || sorted.contains(r[i]) by {
            if i < inner.len() {
                assert(inner[i] == r[i]);
                if r[i] != path {
                    let k = choose|k: int| 0 <= k < init.len() && init[k] == r[i];
                    assert(sorted[k] == r[i]);
                }
            } else {
                assert(sorted[sorted.len() - 1] == r[i]);
            }
        }
        assert forall|i: int, j: int| 0 <= i < j < r.len() implies !parts_less(
            (#[trigger] r[j]).parts,
            (#[trigger] r[i]).parts,
        ) by {
            if j < inner.len() {
                assert(inner[j] == r[j] && inner[i] == r[i]);
            } else {
                assert(inner[i] == r[i]);
                if r[i] == path {
                    lemma_parts_order(path.parts, sorted.last().parts, path.parts);
                } else {
                    let k = choose|k: int| 0 <= k < init.len() && init[k] == r[i];
                    assert(sorted[k] == r[i]);
                    assert(!parts_less(sorted[sorted.len() - 1].parts, sorted[k].parts));
                }
            }
        }
        assert(sorted =~= init.push(sorted.last()));
        assert(r.to_multiset() =~= sorted.to_multiset().insert(path));
    }
}

/// Sorted paths are in order, and the same paths as before.
pub proof fn law_sorted_paths_are_in_order(paths: Seq<PathModel>)
    ensures
        in_order(sort_paths(paths)),
        sort_paths(paths).to_multiset() == paths.to_multiset(),
    decreases paths.len(),
{
    broadcast use vstd::seq_lib::group_to_multiset_ensures;

    if paths.len() > 0 {
        law_sorted_paths_are_in_order(paths.drop_last());
        lemma_insert_in_order(sort_paths(paths.drop_last()), paths.last());
        assert(paths =~= paths.drop_last().push(paths.last()));
    } else {
        assert(sort_paths(paths) =~= paths);
    }
}

/// Octets come before others where they start them, or hold the smaller octet at the first place
/// where the two differ.
pub proof fn law_octets_are_ordered_from_the_left(a: Seq<u8>, b: Seq<u8>)
    ensures
        octets_less(a, b) <==> exists|k: int|
            #![trigger a.take(k)]
            0 <= k <= a.len() && k < b.len() && a.take(k) == b.take(k) && (k == a.len() || a[k] < b[k]),
    decreases a.len(),
{
    if b.len() > 0 && a.len() > 0 && a[0] == b[0] {
        let ra = a.drop_first();
        let rb = b.drop_first();
        law_octets_are_ordered_from_the_left(ra, rb);
        if octets_less(a, b) {
            let k = choose|k: int|
                #![trigger ra.take(k)]
                0 <= k <= ra.len() && k < rb.len() && ra.take(k) == rb.take(k) && (k == ra.len() || ra[k] < rb[k]);
            assert(a.take(k + 1) =~= seq![a[0]] + ra.take(k));
            assert(b.take(k + 1) =~= seq![b[0]] + rb.take(k));
        }
        if exists|k: int|
            #![trigger a.take(k)]
            0 <= k <= a.len() && k < b.len() && a.take(k) == b.take(k) && (k == a.len() || a[k] < b[k]) {
            let k = choose|k: int|
                #![trigger a.take(k)]
                0 <= k <= a.len() && k < b.len() && a.take(k) == b.take(k) && (k == a.len() || a[k] < b[k]);
            assert(k > 0);
            assert(ra.take(k - 1) =~= a.take(k).drop_first());
            assert(rb.take(k - 1) =~= b.take(k).drop_first());
        }
    } else if b.len() > 0 {
        assert(a.take(0) =~= b.take(0));
        assert forall|k: int|
            #![trigger a.take(k)]
            0 <= k <= a.len() && k < b.len() && a.take(k) == b.take(k) && (k == a.len() || a[k] < b[k]) implies octets_less(
            a,
            b,
        ) by {
            if k > 0 {
                assert(a.take(k)[0] == b.take(k)[0]);
            }
        }
    }
}

/// Paths come before others where they start them, or hold the smaller part at the first place
/// where the two differ.
pub proof fn law_paths_are_ordered_part_by_part(a: Seq<Seq<u8>>, b: Seq<Seq<u8>>)
    ensures
        parts_less(a, b) <==> exists|k: int|
            #![trigger a.take(k)]
            0 <= k <= a.len() && k < b.len() && a.take(k) == b.take(k) && (k == a.len() || octets_less(a[k], b[k])),
    decreases a.len(),
{
    if b.len() > 0 && a.len() > 0 && a[0] == b[0] {
        let ra = a.drop_first();
        let rb = b.drop_first();
        law_paths_are_ordered_part_by_part(ra, rb);
        lemma_octets_order(a[0], b[0], a[0]);
        if parts_less(a, b) {
            let k = choose|k: int|
                #![trigger ra.take(k)]
                0 <= k <= ra.len() && k < rb.len() && ra.take(k) == rb.take(k) && (k == ra.len() || octets_less(
                    ra[k],
                    rb[k],
                ));
            assert(a.take(k + 1) =~= seq![a[0]] + ra.take(k));
            assert(b.take(k + 1) =~= seq![b[0]] + rb.take(k));
        }
        if exists|k: int|
            #![trigger a.take(k)]
            0 <= k <= a.len() && k < b.len() && a.take(k) == b.take(k) && (k == a.len() || octets_less(a[k], b[k])) {
            let k = choose|k: int|
                #![trigger a.take(k)]
                0 <= k <= a.len() && k < b.len() && a.take(k) == b.take(k) && (k == a.len() || octets_less(a[k], b[k]));
            assert(k > 0);
            assert(ra.take(k - 1) =~= a.take(k).drop_first());
            assert(rb.take(k - 1) =~= b.take(k).drop_first());
        }
    } else if b.len() > 0 {
        assert(a.take(0) =~= b.take(0));
        assert forall|k: int|
            #![trigger a.take(k)]
            0 <= k <= a.len() && k < b.len() && a.take(k) == b.take(k) && (k == a.len() || octets_less(
                a[k],
                b[k],
            )) implies parts_less(a, b) by {
            if k > 0 {
                assert(a.take(k)[0] == b.take(k)[0]);
            }
        }
    }
}

/// The paths with these parts, in their order.
pub open spec fn with_parts(paths: Seq<PathModel>, parts: Seq<Seq<u8>>) -> Seq<PathModel>
    decreases paths.len(),
{
    if paths.len() == 0 {
        Seq::empty()
    } else if paths.last().parts == parts {
        with_parts(paths.drop_last(), parts).push(paths.last())
    } else {
        with_parts(paths.drop_last(), parts)
    }
}

proof fn lemma_insert_behind_equals(sorted: Seq<PathModel>, path: PathModel, parts: Seq<Seq<u8>>)
    ensures
        with_parts(insert_path(sorted, path), parts) == if path.parts == parts {
            with_parts(sorted, parts).push(path)
        } else {
            with_parts(sorted, parts)
        },
    decreases sorted.len(),
{
    let r = insert_path(sorted, path);
    if sorted.len() == 0 || !parts_less(path.parts, sorted.last().parts) {
        assert(r.drop_last() =~= sorted);
    } else {
        lemma_insert_behind_equals(sorted.drop_last(), path, parts);
        lemma_parts_order(path.parts, sorted.last().parts, path.parts);
        assert(r.drop_last() =~= insert_path(sorted.drop_last(), path));
        assert(r.last() == sorted.last());
    }
}

/// Paths that compare the same stay in the order that they were found in.
pub proof fn law_sorting_keeps_equal_paths_in_place(paths: Seq<PathModel>, parts: Seq<Seq<u8>>)
    ensures
        with_parts(sort_paths(paths), parts) == with_parts(paths, parts),
    decreases paths.len(),
{
    if paths.len() > 0 {
        law_sorting_keeps_equal_paths_in_place(paths.drop_last(), parts);
        lemma_insert_behind_equals(sort_paths(paths.drop_last()), paths.last(), parts);
    }
}

/// Every file is held against the pattern by itself: it is kept where its path is text that has the
/// octets of `prefix` at its start and those of `suffix` at its end, and nothing else is.
pub proof fn law_files_fit_around_the_star(
    first: Seq<FoundModel>,
    more: Seq<FoundModel>,
    file: FoundModel,
    prefix: Seq<u8>,
    suffix: Seq<u8>,
)
    ensures
        fitting(Seq::empty(), prefix, suffix).len() == 0,
        fitting(first + more, prefix, suffix) == fitting(first, prefix, suffix) + fitting(more, prefix, suffix),
        fitting(seq![file], prefix, suffix) == if file.text matches Some(text) && prefix.len() <= text.len()
            && suffix.len() <= text.len() && (forall|i: int| 0 <= i < prefix.len() ==> #[trigger] prefix[i] == text[i]) && (
        forall|i: int| 0 <= i < suffix.len() ==> #[trigger] suffix[i] == text[text.len() - suffix.len() + i]) {
            seq![file.path]
        } else {
            Seq::empty()
        },
    decreases more.len(),
{
    if more.len() == 0 {
        assert(first + more =~= first);
        assert(fitting(first, prefix, suffix) + fitting(more, prefix, suffix) =~= fitting(first, prefix, suffix));
    } else {
        law_files_fit_around_the_star(first, more.drop_last(), file, prefix, suffix);
        assert((first + more).drop_last() =~= first + more.drop_last());
        assert((first + more).last() == more.last());
        assert(fitting(first + more, prefix, suffix) =~= fitting(first, prefix, suffix) + fitting(more, prefix, suffix));
    }
    let one = seq![file];
    let none = Seq::<PathModel>::empty();
    assert(one.drop_last() =~= Seq::<FoundModel>::empty());
    assert(fitting(one.drop_last(), prefix, suffix) =~= none);
    assert(one.last() == file);
    assert(none.push(file.path) =~= seq![file.path]);
    if let Some(text) = file.text {
        if fits(text, prefix, suffix) {
            assert forall|i: int| 0 <= i < prefix.len() implies #[trigger] prefix[i] == text[i] by {
                assert(text.take(prefix.len() as int)[i] == text[i]);
            }
            assert forall|i: int| 0 <= i < suffix.len() implies #[trigger] suffix[i] == text[text.len() - suffix.len()
                + i] by {
                assert(text.skip(text.len() - suffix.len())[i] == text[text.len() - suffix.len() + i]);
            }
        } else if prefix.len() <= text.len() && suffix.len() <= text.len() && (forall|i: int|
            0 <= i < prefix.len() ==> #[trigger] prefix[i] == text[i]) && (forall|i: int|
            0 <= i < suffix.len() ==> #[trigger] suffix[i] == text[text.len() - suffix.len() + i]) {
            assert(text.take(prefix.len() as int) =~= prefix);
            assert(text.skip(text.len() - suffix.len()) =~= suffix);
        }
    }
}

/// Octets are counted one by one.
pub proof fn law_octets_are_counted(first: Seq<u8>, more: Seq<u8>, octet: u8, other: u8)
    ensures
        occurrences(Seq::empty(), octet) == 0,
        occurrences(first + more, octet) == occurrences(first, octet) + occurrences(more, octet),
        occurrences(seq![octet], octet) == 1,
        other != octet ==> occurrences(seq![other], octet) == 0,
    decreases more.len(),
{
    if more.len() == 0 {
        assert(first + more =~= first);
    } else {
        law_octets_are_counted(first, more.drop_last(), octet, other);
        assert((first + more).drop_last() =~= first + more.drop_last());
    }
    assert(seq![octet].drop_last() =~= Seq::<u8>::empty());
    assert(seq![other].drop_last() =~= Seq::<u8>::empty());
    reveal_with_fuel(occurrences, 2);
}

proof fn lemma_none_counted(octets: Seq<u8>, octet: u8)
    ensures
        occurrences(octets, octet) == 0 <==> !octets.contains(octet),
    decreases octets.len(),
{
    if octets.len() > 0 {
        let init = octets.drop_last();
        lemma_none_counted(init, octet);
        if octets.last() == octet {
            assert(octets.contains(octets.last()));
        } else if octets.contains(octet) {
            let i = choose|i: int| 0 <= i < octets.len() && octets[i] == octet;
            assert(init[i] == octet);
        } else if init.contains(octet) {
            let i = choose|i: int| 0 <= i < init.len() && init[i] == octet;
            assert(octets[i] == octet);
        }
    }
}

/// A path without a `*` stands for itself.
pub proof fn law_path_without_star_is_one_file(
    path: PathModel,
    text: Option<Seq<u8>>,
    separator: u8,
    r: Result<Expansion, ConfigError>,
)
    requires
        !path.octets.contains(42u8),
    ensures
        expands_to(path, text, separator, r) <==> (r matches Ok(Expansion::One(one)) && one@ == path),
{
    lemma_none_counted(path.octets, 42);
}

/// A path with one `*` stands for the files that have what stands before it at their start and what
/// stands behind it at their end. They are looked for in what stands before it, where that ends in
/// the separator, and else in the directory that it lies in. What is no text is refused.
pub proof fn law_path_with_a_star_is_a_search(
    path: PathModel,
    before: Seq<u8>,
    behind: Seq<u8>,
    separator: u8,
    r: Result<Expansion, ConfigError>,
)
    requires
        path.octets == before + seq![42u8] + behind,
        !before.contains(42u8),
        !behind.contains(42u8),
    ensures
        expands_to(path, Some(path.octets), separator, r) <==> (r matches Ok(
            Expansion::Search { prefix, suffix, in_prefix },
        ) && encode_utf8(prefix@) == before && encode_utf8(suffix@) == behind && (in_prefix <==> before.len() > 0
            && before.last() == separator)),
        expands_to(path, None, separator, r) <==> (r matches Err(ConfigError::NotText(whole)) && whole@ == path),
{
    lemma_none_counted(before, 42);
    lemma_none_counted(behind, 42);
    law_octets_are_counted(before + seq![42u8], behind, 42, 0);
    law_octets_are_counted(before, seq![42u8], 42, 0);
    assert(occurrences(path.octets, STAR) == 1);
    if let Ok(Expansion::Search { prefix, suffix, in_prefix }) = r {
        let p = encode_utf8(prefix@);
        let s = encode_utf8(suffix@);
        let whole = p + seq![STAR] + s;
        if whole == path.octets {
            assert(whole[p.len() as int] == 42);
            if p.len() < before.len() {
                assert(before[p.len() as int] == path.octets[p.len() as int]);
                assert(before.contains(before[p.len() as int]));
            } else if p.len() > before.len() {
                let i = p.len() - before.len() - 1;
                assert(path.octets[p.len() as int] == behind[i]);
                assert(behind.contains(behind[i]));
            }
            assert(p =~= whole.take(p.len() as int));
            assert(before =~= path.octets.take(before.len() as int));
            assert(s =~= whole.skip((p.len() + 1) as int));
            assert(behind =~= path.octets.skip((before.len() + 1) as int));
        }
    }
}

/// A path with more than one `*` is refused.
pub proof fn law_path_with_two_stars_is_refused(
    path: PathModel,
    text: Option<Seq<u8>>,
    separator: u8,
    r: Result<Expansion, ConfigError>,
    i: int,
    j: int,
)
    requires
        0 <= i < j < path.octets.len(),
        path.octets[i] == 42,
        path.octets[j] == 42,
    ensures
        expands_to(path, text, separator, r) <==> (r matches Err(ConfigError::TooManyStars(whole)) && whole@ == path),
{
    let head = path.octets.take(j);
    let tail = path.octets.skip(j);
    assert(head + tail =~= path.octets);
    law_octets_are_counted(head, tail, 42, 0);
    lemma_none_counted(head, 42);
    lemma_none_counted(tail, 42);
    assert(head[i] == 42);
    assert(tail[0] == 42);
}

} // verus!
