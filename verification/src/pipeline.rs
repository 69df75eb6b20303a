//! The annotation pipeline's decisions: which discovered files are skipped,
//! how a service response is validated, how labels are ranked and the top
//! ones kept, and how the caption and label vectors combine into the stored
//! semantic vector. The service call itself happens outside; everything
//! that decides is here.
use vstd::prelude::*;
use vstd::seq_lib::group_to_multiset_ensures;
use crate::fixedpoint::{bounded_entries, div_trunc, tdiv};
use crate::walker::is_image_path;

verus! {

/// Why a service response was unusable.
#[derive(Clone, Copy, Debug, PartialEq, Eq, Structural)]
pub enum AnnotationError {
    MissingField,
}

/// One label of a response: a name and its confidence, in thousandths.
pub struct Label {
    pub name: String,
    pub score: i64,
}

impl Label {
    pub fn new(name: String, score: i64) -> (r: Label)
        ensures
            r.name@ == name@,
            r.score == score,
    {
        Label { name, score }
    }
}

impl Clone for Label {
    fn clone(&self) -> (r: Self)
        ensures
            r.name@ == self.name@,
            r.score == self.score,
    {
        Label { name: self.name.clone(), score: self.score }
    }
}

/// What the annotation service's reply carries once decoded to plain
/// values: each field present or missing.
pub struct AnnotationDoc {
    pub caption: Option<String>,
    pub labels: Option<Vec<Label>>,
}

/// A validated annotation: a caption and its ranked labels.
pub struct AzureResponse {
    pub caption: String,
    pub labels: Vec<Label>,
}

impl AzureResponse {
    /// Accept a reply exactly when both fields are present; a missing
    /// caption or label list is a skip, never a crash.
    pub fn try_from_doc(doc: AnnotationDoc) -> (r: Result<AzureResponse, AnnotationError>)
        ensures
            r.is_ok() <==> (doc.caption.is_some() && doc.labels.is_some()),
            r.is_ok() ==> r.unwrap().caption == doc.caption.unwrap()
                && r.unwrap().labels == doc.labels.unwrap(),
    {
        match doc.caption {
            None => Err(AnnotationError::MissingField),
            Some(caption) => match doc.labels {
                None => Err(AnnotationError::MissingField),
                Some(labels) => Ok(AzureResponse { caption, labels }),
            },
        }
    }
}

/// The request sent to the annotation service: headers, image bytes, and
/// the endpoint with its feature-selection arguments.
pub struct AzureRequest {
    pub headers: Vec<(String, String)>,
    pub img: Vec<u8>,
    pub request_adress: String,
}

/// The parts joined by a separator, as `join` renders them.
pub open spec fn joined(parts: Seq<Seq<char>>, sep: char) -> Seq<char>
    decreases parts.len(),
{
    if parts.len() == 0 {
        Seq::empty()
    } else if parts.len() == 1 {
        parts.first()
    } else {
        joined(parts.drop_last(), sep) + seq![sep] + parts.last()
    }
}

impl AzureRequest {
    /// Build the request: authentication and content-type headers, no image
    /// yet, and the endpoint address with the requested features appended,
    /// comma-separated.
    pub fn new(key: &str, args: Vec<&str>) -> (r: AzureRequest)
        ensures
            r.headers@.len() == 2,
            r.headers@[0].0@ == "Ocp-Apim-Subscription-Key"@,
            r.headers@[0].1@ == key@,
            r.headers@[1].0@ == "Content-Type"@,
            r.headers@[1].1@ == "application/octet-stream"@,
            r.img@ == Seq::<u8>::empty(),
            r.request_adress@ == "https://file-search-rust-paid.cognitiveservices.azure.com/computervision/imageanalysis:analyze?api-version=2024-02-01&features="@
                + joined(args@.map_values(|a: &str| a@), ','),
    {
        let mut headers: Vec<(String, String)> = Vec::new();
        headers.push(("Ocp-Apim-Subscription-Key".to_owned(), key.to_owned()));
        headers.push(("Content-Type".to_owned(), "application/octet-stream".to_owned()));
        let mut adress =
            "https://file-search-rust-paid.cognitiveservices.azure.com/computervision/imageanalysis:analyze?api-version=2024-02-01&features=".to_owned();
        let ghost base = adress@;
        let ghost avs = args@.map_values(|a: &str| a@);
        let n = args.len();
        let mut i: usize = 0;
        while i < n
            invariant
                0 <= i <= n,
                n == args@.len(),
                avs == args@.map_values(|a: &str| a@),
                adress@ == base + joined(avs.take(i as int), ','),
            decreases n - i,
        {
            proof {
                assert(avs.take(i as int + 1).drop_last() =~= avs.take(i as int));
                assert(avs.take(i as int + 1).last() == avs[i as int]);
                assert(avs[i as int] == args@[i as int]@);
            }
            if i > 0 {
                adress.append(",");
                proof {
                    reveal_strlit(",");
                    assert(","@ =~= seq![',']);
                }
            }
            adress.append(args[i]);
            proof {
                if i == 0 {
                    assert(avs.take(0) =~= Seq::<Seq<char>>::empty());
                    assert(joined(avs.take(0), ',') =~= Seq::<char>::empty());
                    assert(adress@ =~= base + joined(avs.take(1), ','));
                } else {
                    assert(adress@ =~= base + (joined(avs.take(i as int), ',') + seq![',']
                        + avs[i as int]));
                }
            }
            i = i + 1;
        }
        proof {
            assert(avs.take(n as int) =~= avs);
            assert(adress@ == base + joined(avs, ','));
        }
        AzureRequest { headers, img: Vec::new(), request_adress: adress }
    }

    /// Adopt the image bytes read for this request.
    pub fn set_img(&mut self, img: Vec<u8>)
        ensures
            final(self).img@ == img@,
            final(self).headers == old(self).headers,
            final(self).request_adress == old(self).request_adress,
    {
        self.img = img;
    }
}

/// The pipeline's skip decision over the filesystem probes and the dedup
/// check: a non-file or non-image is simply not the pipeline's to process;
/// an image whose dimensions cannot be read or fall outside 50..=16000 on
/// either axis is skipped; and one already stored is skipped.
pub open spec fn should_skip(
    is_file: bool,
    p: Seq<char>,
    dims: Option<(u64, u64)>,
    already_indexed: bool,
) -> bool {
    if !is_file {
        false
    } else if !is_image_path(p) {
        false
    } else {
        match dims {
            None => true,
            Some((w, h)) => if w < 50 || h < 50 || w > 16000 || h > 16000 {
                true
            } else {
                already_indexed
            },
        }
    }
}

/// Whether decoded dimensions are acceptable for annotation.
pub fn dimensions_acceptable(width: u64, height: u64) -> (r: bool)
    ensures
        r == (50 <= width <= 16000 && 50 <= height <= 16000),
{
    50 <= width && width <= 16000 && 50 <= height && height <= 16000
}

/// The skip decision, from plain probe results: whether the path is a
/// file, its decoded dimensions (`None` when they could not be read), and
/// whether the store already holds the path.
pub fn should_skip_image(
    is_file: bool,
    path: &str,
    dims: Option<(u64, u64)>,
    already_indexed: bool,
) -> (r: bool)
    ensures
        r == should_skip(is_file, path@, dims, already_indexed),
{
    if !is_file {
        return false;
    }
    if !crate::walker::DirWalker::is_image(path) {
        return false;
    }
    match dims {
        None => true,
        Some((w, h)) => {
            if !dimensions_acceptable(w, h) {
                true
            } else {
                already_indexed
            }
        },
    }
}

/// Running the pipeline a second time over a stored image skips it: a
/// file that was annotated and persisted — an image with acceptable
/// dimensions whose path the store now holds — is never processed again.
/// (dedup)
pub proof fn lemma_second_pass_skips(p: Seq<char>, w: u64, h: u64)
    requires
        is_image_path(p),
        50 <= w <= 16000,
        50 <= h <= 16000,
    ensures
        should_skip(true, p, Some((w, h)), true),
{
}

pub open spec fn scores_sorted_desc(l: Seq<Label>) -> bool {
    forall|i: int, j: int| 0 <= i < j < l.len() ==> (#[trigger] l[i]).score
        >= (#[trigger] l[j]).score
}

/// Order labels by confidence, best first: the result holds exactly the
/// given labels, sorted by descending score.
pub fn sort_labels_desc(labels: Vec<Label>) -> (r: Vec<Label>)
    ensures
        r@.to_multiset() == labels@.to_multiset(),
        scores_sorted_desc(r@),
{
    broadcast use group_to_multiset_ensures;

    let mut rest = labels;
    let ghost orig = rest@;
    let mut out: Vec<Label> = Vec::new();
    proof {
        assert(out@.to_multiset().add(rest@.to_multiset()) =~= orig.to_multiset());
    }
    while rest.len() > 0
        invariant
            out@.to_multiset().add(rest@.to_multiset()) == orig.to_multiset(),
            scores_sorted_desc(out@),
            forall|i: int, j: int|
                0 <= i < out@.len() && 0 <= j < rest@.len() ==> (#[trigger] out@[i]).score
                    >= (#[trigger] rest@[j]).score,
        decreases rest@.len(),
    {
        let mut best: usize = 0;
        let mut k: usize = 1;
        while k < rest.len()
            invariant
                0 <= best < k <= rest@.len(),
                rest@.len() > 0,
                forall|j: int| 0 <= j < k ==> rest@[best as int].score
                    >= (#[trigger] rest@[j]).score,
            decreases rest@.len() - k,
        {
            if rest[k].score > rest[best].score {
                best = k;
            }
            k = k + 1;
        }
        let ghost rest0 = rest@;
        let ghost out0 = out@;
        let x = rest.remove(best);
        out.push(x);
        proof {
            rest0.to_multiset_ensures();
            out0.to_multiset_ensures();
            assert(rest@ == rest0.remove(best as int));
            assert(rest@.to_multiset() == rest0.remove(best as int).to_multiset());
            assert(rest@.to_multiset() =~= rest0.to_multiset().remove(x));
            assert(out@ == out0.push(x));
            assert(out@.to_multiset() == out0.push(x).to_multiset());
            assert(out@.to_multiset() =~= out0.to_multiset().insert(x));
            assert(rest0.contains(x)) by {
                assert(rest0[best as int] == x);
            }
            assert(rest0.to_multiset().count(x) > 0);
            assert(out@.to_multiset().add(rest@.to_multiset()) =~= orig.to_multiset());
            assert forall|i: int, j: int|
                0 <= i < out@.len() && 0 <= j < rest@.len() implies (#[trigger] out@[i]).score
                >= (#[trigger] rest@[j]).score by {
                if i < out0.len() {
                    assert(out@[i] == out0[i]);
                }
                if j < best {
                    assert(rest@[j] == rest0[j]);
                } else {
                    assert(rest@[j] == rest0[j + 1]);
                }
            }
        }
    }
    out
}

/// The names of the first `k` labels, in order.
pub fn take_names(labels: &Vec<Label>, k: usize) -> (r: Vec<String>)
    ensures
        r@.len() == (if k <= labels@.len() {
            k as int
        } else {
            labels@.len() as int
        }),
        forall|i: int| 0 <= i < r@.len() ==> (#[trigger] r@[i])@ == labels@[i].name@,
{
    let mut r: Vec<String> = Vec::new();
    let n = if k <= labels.len() {
        k
    } else {
        labels.len()
    };
    let mut i: usize = 0;
    while i < n
        invariant
            0 <= i <= n <= labels@.len(),
            r@.len() == i,
            forall|j: int| 0 <= j < i ==> (#[trigger] r@[j])@ == labels@[j].name@,
        decreases n - i,
    {
        r.push(labels[i].name.clone());
        i = i + 1;
    }
    r
}

/// The parts joined by single blanks, exactly as `joined` spells it.
pub fn join_spaces(parts: &Vec<String>) -> (r: String)
    ensures
        r@ == joined(parts@.map_values(|s: String| s@), ' '),
{
    let ghost pvs = parts@.map_values(|s: String| s@);
    let mut r = String::new();
    let n = parts.len();
    let mut i: usize = 0;
    proof {
        assert(joined(pvs.take(0), ' ') =~= Seq::<char>::empty());
        assert(r@ =~= joined(pvs.take(0), ' '));
    }
    while i < n
        invariant
            0 <= i <= n,
            n == parts@.len(),
            pvs == parts@.map_values(|s: String| s@),
            r@ == joined(pvs.take(i as int), ' '),
        decreases n - i,
    {
        proof {
            assert(pvs.take(i as int + 1).drop_last() =~= pvs.take(i as int));
            assert(pvs.take(i as int + 1).last() == pvs[i as int]);
            assert(pvs[i as int] == parts@[i as int]@);
        }
        if i > 0 {
            r.append(" ");
            proof {
                reveal_strlit(" ");
                assert(" "@ =~= seq![' ']);
            }
        }
        r.append(parts[i].as_str());
        proof {
            if i == 0 {
                assert(pvs.take(0) =~= Seq::<Seq<char>>::empty());
                assert(r@ =~= joined(pvs.take(1), ' '));
            } else {
                assert(r@ =~= joined(pvs.take(i as int), ' ') + seq![' '] + pvs[i as int]);
            }
        }
        i = i + 1;
    }
    proof {
        assert(pvs.take(n as int) =~= pvs);
    }
    r
}

/// Combine the caption vector and the label vector with equal weight: the
/// elementwise mean, truncated toward zero.
pub fn prepare_semantic_vec(caption_vec: &Vec<i64>, labels_vec: &Vec<i64>) -> (r: Vec<i64>)
    requires
        caption_vec@.len() == labels_vec@.len(),
        bounded_entries(caption_vec@),
        bounded_entries(labels_vec@),
    ensures
        r@.len() == caption_vec@.len(),
        forall|i: int| 0 <= i < r@.len() ==> #[trigger] r@[i] as int == tdiv(
            caption_vec@[i] as int + labels_vec@[i] as int,
            2,
        ),
        bounded_entries(r@),
{
    let n = caption_vec.len();
    let mut r: Vec<i64> = Vec::new();
    let mut i: usize = 0;
    while i < n
        invariant
            0 <= i <= n,
            n == caption_vec@.len() == labels_vec@.len(),
            bounded_entries(caption_vec@),
            bounded_entries(labels_vec@),
            r@.len() == i,
            forall|j: int| 0 <= j < i ==> #[trigger] r@[j] as int == tdiv(
                caption_vec@[j] as int + labels_vec@[j] as int,
                2,
            ),
            bounded_entries(r@),
        decreases n - i,
    {
        let s = (caption_vec[i] as i128) + (labels_vec[i] as i128);
        let q = div_trunc(s, 2);
        proof {
            assert(-1048576 <= caption_vec@[i as int] <= 1048576);
            assert(-1048576 <= labels_vec@[i as int] <= 1048576);
            crate::embedding::lemma_tdiv_bound(s as int, 2, 1048576);
        }
        r.push(q as i64);
        i = i + 1;
    }
    r
}

/// The target size for a service upload: the longer axis becomes 600 and
/// the other scales in proportion, rounded down.
pub fn resize_dimensions(width: u32, height: u32) -> (r: (u32, u32))
    requires
        1 <= width <= 1000000,
        1 <= height <= 1000000,
    ensures
        width > height ==> r.0 == 600 && r.1 as int == 600 * height as int / width as int,
        width <= height ==> r.1 == 600 && r.0 as int == 600 * width as int / height as int,
{
    if width > height {
        (600, 600 * height / width)
    } else {
        (600 * width / height, 600)
    }
}

} // verus!
