//! The application facade: the shared state the interface layer drives —
//! filename map, prefix trie with its builder/built gate, embedding engine,
//! semantic store — and the search entry points over it.
use vstd::prelude::*;
use crate::codec;
use crate::embedding::{average_of, to_ints, tokens_of, EmbedError, Embedding};
use crate::filename_index::{path_set, with_path, FilenameIndex};
use crate::fixedpoint::{
    bounded_entries, dot_of, from_ints, norm_sq, sqrt_floor, tdiv, MAX_DIM, SCALE,
};
use crate::paths::basename_of;
use crate::store::{Database, SemanticVectorElement};
use crate::store::rows_for;
use crate::trie::Trie;

verus! {

/// The prefix structure's two-state gate: still accepting insertions, or
/// built and queryable.
pub enum SomeTrie {
    Trie(Trie),
    TrieBuilder(Trie),
}

pub open spec fn trie_of(st: SomeTrie) -> Trie {
    match st {
        SomeTrie::Trie(t) => t,
        SomeTrie::TrieBuilder(t) => t,
    }
}

pub open spec fn is_built(st: SomeTrie) -> bool {
    match st {
        SomeTrie::Trie(_) => true,
        SomeTrie::TrieBuilder(_) => false,
    }
}

/// The application state: constructed once, handed to every operation.
pub struct App {
    pub map: FilenameIndex,
    pub trie: SomeTrie,
    pub is_prefix_search_enabled: bool,
    pub embeddings: Embedding,
    pub db: Option<Database>,
    pub is_image_search_enabled: bool,
}

impl App {
    /// Every component well-formed; when prefix search is on, the trie is
    /// built and holds the basename of every map key — and nothing else.
    pub open spec fn wf(self) -> bool {
        &&& self.map.wf()
        &&& trie_of(self.trie).wf()
        &&& self.embeddings.wf()
        &&& match self.db {
            Some(db) => db.wf(),
            None => true,
        }
        &&& self.is_prefix_search_enabled ==> is_built(self.trie)
        &&& self.is_prefix_search_enabled ==> forall|k: Seq<char>|
            self.map@.dom().contains(k) ==> trie_of(self.trie).lookup(
                #[trigger] basename_of(k),
            ).len() > 0
        &&& self.is_prefix_search_enabled ==> forall|k2: Seq<char>|
            trie_of(self.trie).lookup(k2).len() > 0 ==> exists|k: Seq<char>|
                self.map@.dom().contains(k) && basename_of(k) == k2
    }

    /// Fresh state: the persisted filename map if its bytes decode, else
    /// empty; an unbuilt trie; both features off; no store yet.
    pub fn new(map_bytes: Option<&Vec<u8>>) -> (r: App)
        ensures
            r.wf(),
            !r.is_prefix_search_enabled,
            !r.is_image_search_enabled,
            r.db.is_none(),
            !is_built(r.trie),
            match map_bytes {
                None => r.map@ == Map::<Seq<char>, Set<Seq<char>>>::empty(),
                Some(b) => match codec::spec_decode(b@) {
                    Some(rs) => r.map.records() == (if codec::records_wf(rs) {
                        rs
                    } else {
                        Seq::<codec::Record>::empty()
                    }),
                    None => r.map.records() == Seq::<codec::Record>::empty(),
                },
            },
    {
        App {
            map: initialize_map(map_bytes),
            trie: SomeTrie::TrieBuilder(Trie::new()),
            is_prefix_search_enabled: false,
            embeddings: Embedding::new(),
            db: None,
            is_image_search_enabled: false,
        }
    }

    /// Record one discovered file: the path joins the map under its
    /// basename, and a built trie learns the basename too, staying in step.
    pub fn index_file(&mut self, path: &str)
        requires
            old(self).wf(),
        ensures
            final(self).wf(),
            final(self).map@ == with_path(old(self).map@, path@),
            final(self).is_prefix_search_enabled == old(self).is_prefix_search_enabled,
            final(self).is_image_search_enabled == old(self).is_image_search_enabled,
            final(self).embeddings == old(self).embeddings,
            final(self).db == old(self).db,
    {
        self.map.insert(path);
        if self.is_prefix_search_enabled {
            match &mut self.trie {
                SomeTrie::Trie(t) => {
                    t.insert(path);
                },
                SomeTrie::TrieBuilder(t) => {
                    t.insert(path);
                },
            }
        }
        proof {
            if self.is_prefix_search_enabled {
                let b = basename_of(path@);
                crate::paths::lemma_basename_idempotent(path@);
                assert forall|k: Seq<char>| self.map@.dom().contains(k)
                    implies trie_of(self.trie).lookup(#[trigger] basename_of(k)).len()
                    > 0 by {
                    if k == b {
                        assert(trie_of(self.trie).lookup(basename_of(b))
                            == trie_of(old(self).trie).lookup(basename_of(b)).push(path@));
                    } else {
                        assert(old(self).map@.dom().contains(k));
                        if basename_of(k) == basename_of(path@) {
                            assert(trie_of(self.trie).lookup(basename_of(k)).len()
                                == trie_of(old(self).trie).lookup(basename_of(k)).len() + 1);
                        } else {
                            assert(trie_of(self.trie).lookup(basename_of(k))
                                == trie_of(old(self).trie).lookup(basename_of(k)));
                        }
                    }
                }
                assert forall|k2: Seq<char>| trie_of(self.trie).lookup(k2).len() > 0
                    implies exists|k: Seq<char>| self.map@.dom().contains(k)
                    && basename_of(k) == k2 by {
                    if k2 == b {
                        assert(self.map@.dom().contains(b));
                        assert(basename_of(b) == k2);
                    } else {
                        assert(trie_of(self.trie).lookup(k2)
                            == trie_of(old(self).trie).lookup(k2));
                        let k = choose|k: Seq<char>| old(self).map@.dom().contains(k)
                            && basename_of(k) == k2;
                        assert(self.map@.dom().contains(k));
                    }
                }
            }
        }
    }
}

/// The persisted map, or the empty one where no usable bytes exist:
/// absence and corruption both mean "no prior index".
pub fn initialize_map(bytes: Option<&Vec<u8>>) -> (r: FilenameIndex)
    ensures
        r.wf(),
        match bytes {
            None => r@ == Map::<Seq<char>, Set<Seq<char>>>::empty(),
            Some(b) => match codec::spec_decode(b@) {
                Some(rs) => r.records() == (if codec::records_wf(rs) {
                    rs
                } else {
                    Seq::<codec::Record>::empty()
                }),
                None => r.records() == Seq::<codec::Record>::empty(),
            },
        },
{
    match bytes {
        None => FilenameIndex::new(),
        Some(b) => codec::load(b),
    }
}

/// Build the prefix trie from every key of the map: each key's basename is
/// afterwards stored in the trie, and the trie holds nothing else.
pub fn initialize_trie(map: &FilenameIndex) -> (r: SomeTrie)
    requires
        map.wf(),
    ensures
        is_built(r),
        trie_of(r).wf(),
        forall|k: Seq<char>| map@.dom().contains(k) ==> trie_of(r).lookup(
            #[trigger] basename_of(k),
        ).len() > 0,
        forall|k2: Seq<char>| trie_of(r).lookup(k2).len() > 0 ==> exists|k: Seq<char>|
            map@.dom().contains(k) && basename_of(k) == k2,
{
    let keys = map.keys();
    let mut t = Trie::new();
    let n = keys.len();
    let mut i: usize = 0;
    while i < n
        invariant
            n == keys@.len(),
            0 <= i <= n,
            t.wf(),
            forall|j: int| 0 <= j < keys@.len() ==> map@.dom().contains(
                (#[trigger] keys@[j])@,
            ),
            forall|k: Seq<char>| map@.dom().contains(k) ==> exists|j: int|
                0 <= j < keys@.len() && (#[trigger] keys@[j])@ == k,
            forall|j: int| 0 <= j < i ==> t.lookup(basename_of((#[trigger] keys@[j])@)).len()
                > 0,
            forall|k2: Seq<char>| t.lookup(k2).len() > 0 ==> exists|j: int|
                0 <= j < i && basename_of((#[trigger] keys@[j])@) == k2,
        decreases n - i,
    {
        let ghost t0 = t;
        t.insert(keys[i].as_str());
        proof {
            let kb = basename_of(keys@[i as int]@);
            assert(t.lookup(kb) == t0.lookup(kb).push(keys@[i as int]@));
            assert forall|j: int| 0 <= j < i + 1 implies t.lookup(
                basename_of((#[trigger] keys@[j])@),
            ).len() > 0 by {
                if j < i {
                    if basename_of(keys@[j]@) != kb {
                        assert(t.lookup(basename_of(keys@[j]@))
                            == t0.lookup(basename_of(keys@[j]@)));
                    }
                }
            }
            assert forall|k2: Seq<char>| t.lookup(k2).len() > 0 implies exists|j: int|
                0 <= j < i + 1 && basename_of((#[trigger] keys@[j])@) == k2 by {
                if k2 == kb {
                    assert(basename_of(keys@[i as int]@) == k2);
                } else {
                    assert(t.lookup(k2) == t0.lookup(k2));
                    let j = choose|j: int| 0 <= j < i
                        && basename_of((#[trigger] keys@[j])@) == k2;
                    assert(basename_of(keys@[j]@) == k2);
                }
            }
        }
        i = i + 1;
    }
    proof {
        assert forall|k: Seq<char>| map@.dom().contains(k) implies trie_of(
            SomeTrie::Trie(t),
        ).lookup(#[trigger] basename_of(k)).len() > 0 by {
            let j = choose|j: int| 0 <= j < keys@.len() && (#[trigger] keys@[j])@ == k;
            assert(t.lookup(basename_of(keys@[j]@)).len() > 0);
        }
    }
    SomeTrie::Trie(t)
}

/// The same construction under the name the indexing path uses.
pub fn build_trie(map: &FilenameIndex) -> (r: SomeTrie)
    requires
        map.wf(),
    ensures
        is_built(r),
        trie_of(r).wf(),
        forall|k: Seq<char>| map@.dom().contains(k) ==> trie_of(r).lookup(
            #[trigger] basename_of(k),
        ).len() > 0,
        forall|k2: Seq<char>| trie_of(r).lookup(k2).len() > 0 ==> exists|k: Seq<char>|
            map@.dom().contains(k) && basename_of(k) == k2,
{
    initialize_trie(map)
}

/// The one-shot idle-to-active gate: build the trie from the map and turn
/// prefix search on; once active, calling again changes nothing.
pub fn enable_prefix_search(app: &mut App)
    requires
        old(app).wf(),
    ensures
        final(app).wf(),
        final(app).is_prefix_search_enabled,
        final(app).map == old(app).map,
        final(app).embeddings == old(app).embeddings,
        final(app).db == old(app).db,
        final(app).is_image_search_enabled == old(app).is_image_search_enabled,
        old(app).is_prefix_search_enabled ==> *final(app) == *old(app),
{
    if !app.is_prefix_search_enabled {
        app.trie = initialize_trie(&app.map);
        app.is_prefix_search_enabled = true;
    }
}

/// Turn image search on, once: parse the word-vector text into the engine
/// and open a store if none exists. A malformed table fails the step and
/// the feature stays off; once active, calling again changes nothing.
pub fn enable_image_search(app: &mut App, table_text: &str) -> (r: Result<(), EmbedError>)
    requires
        old(app).wf(),
    ensures
        final(app).wf(),
        old(app).is_image_search_enabled ==> *final(app) == *old(app) && r == Ok::<
            (),
            EmbedError,
        >(()),
        !old(app).is_image_search_enabled ==> match r {
            Ok(()) => {
                &&& crate::embedding::table_of(table_text@)
                    == Some(final(app).embeddings.rows())
                &&& final(app).db.is_some()
                &&& (old(app).db.is_some() ==> final(app).db == old(app).db)
                &&& (old(app).db.is_none() ==> final(app).db.unwrap().images_view()
                    == Seq::<(u32, Seq<char>, Seq<char>)>::empty())
                &&& final(app).is_image_search_enabled
                &&& final(app).map == old(app).map
                &&& final(app).trie == old(app).trie
                &&& final(app).is_prefix_search_enabled
                    == old(app).is_prefix_search_enabled
            },
            Err(_) => {
                &&& crate::embedding::table_of(table_text@).is_none()
                &&& *final(app) == *old(app)
            },
        },
{
    if app.is_image_search_enabled {
        return Ok(());
    }
    let outcome = app.embeddings.get_embeddings(table_text);
    match outcome {
        Err(e) => Err(e),
        Ok(()) => {
            if app.db.is_none() {
                if let Ok(db) = Database::new() {
                    app.db = Some(db);
                }
            }
            app.is_image_search_enabled = true;
            Ok(())
        },
    }
}

/// Whether `a` ranks at least as high as `b`: a defined similarity beats an
/// undefined one, and undefined results sort last, deterministically.
pub open spec fn score_ge(a: Option<i64>, b: Option<i64>) -> bool {
    match (a, b) {
        (Some(x), Some(y)) => x >= y,
        (Some(_), None) => true,
        (None, Some(_)) => false,
        (None, None) => true,
    }
}

pub open spec fn values_of_rows(rows: Seq<SemanticVectorElement>) -> Seq<i64> {
    rows.map_values(|e: SemanticVectorElement| e.value)
}

/// The similarity recorded for a stored vector against a query vector:
/// their cosine, in thousandths, and `None` — never a crash — when either
/// is zero, their lengths disagree, or the stored scalars are unusable.
pub open spec fn score_spec(stored: Seq<i64>, q: Seq<i64>) -> Option<i64> {
    if stored.len() == q.len() && stored.len() <= MAX_DIM && bounded_entries(stored)
        && bounded_entries(q) && norm_sq(stored) != 0 && norm_sq(q) != 0 {
        Some(
            tdiv(
                dot_of(stored, q) * (SCALE as int) * (SCALE as int),
                sqrt_floor(norm_sq(stored) * norm_sq(q) * (SCALE as int) * (SCALE as int)),
            ) as i64,
        )
    } else {
        None
    }
}

fn entries_bounded(v: &Vec<i64>) -> (r: bool)
    ensures
        r == bounded_entries(v@),
{
    let n = v.len();
    let mut i: usize = 0;
    while i < n
        invariant
            n == v@.len(),
            0 <= i <= n,
            forall|j: int| 0 <= j < i ==> -1048576 <= #[trigger] v@[j] <= 1048576,
        decreases n - i,
    {
        if v[i] < -1048576 || v[i] > 1048576 {
            return false;
        }
        i = i + 1;
    }
    true
}

/// Score one stored vector against the query, exactly as `score_spec`.
fn score_one(stored: &Vec<i64>, q: &Vec<i64>) -> (r: Option<i64>)
    ensures
        r == score_spec(stored@, q@),
{
    if stored.len() != q.len() || stored.len() > MAX_DIM {
        return None;
    }
    if !entries_bounded(stored) || !entries_bounded(q) {
        return None;
    }
    match Embedding::cosine_similarity(stored, q) {
        None => None,
        Some(v) => {
            proof {
                assert(v as int == tdiv(
                    dot_of(stored@, q@) * (SCALE as int) * (SCALE as int),
                    sqrt_floor(norm_sq(stored@) * norm_sq(q@) * (SCALE as int) * (SCALE as int)),
                ));
            }
            Some(v)
        },
    }
}

/// Every stored image with its path, id and similarity to the query, in
/// table order.
pub fn score_images(db: &Database, query: &Vec<i64>) -> (r: Vec<(String, u32, Option<i64>)>)
    requires
        db.wf(),
    ensures
        r@.len() == db.images_view().len(),
        forall|i: int| 0 <= i < r@.len() ==> {
            &&& (#[trigger] r@[i]).0@ == db.images_view()[i].1
            &&& r@[i].1 == db.images_view()[i].0
            &&& r@[i].2 == score_spec(
                values_of_rows(rows_for(db.vectors_view(), db.images_view()[i].0)),
                query@,
            )
        },
{
    let n = db.image_count();
    let mut r: Vec<(String, u32, Option<i64>)> = Vec::new();
    let mut i: usize = 0;
    while i < n
        invariant
            db.wf(),
            n == db.images_view().len(),
            0 <= i <= n,
            r@.len() == i,
            forall|j: int| 0 <= j < i ==> {
                &&& (#[trigger] r@[j]).0@ == db.images_view()[j].1
                &&& r@[j].1 == db.images_view()[j].0
                &&& r@[j].2 == score_spec(
                    values_of_rows(rows_for(db.vectors_view(), db.images_view()[j].0)),
                    query@,
                )
            },
        decreases n - i,
    {
        let (id, path) = db.image_at(i);
        let stored = db.vector_values_for(id);
        let score = score_one(&stored, query);
        r.push((path, id, score));
        i = i + 1;
    }
    r
}

pub open spec fn scores_sorted(l: Seq<(String, u32, Option<i64>)>) -> bool {
    forall|i: int, j: int| 0 <= i < j < l.len() ==> score_ge(
        (#[trigger] l[i]).2,
        (#[trigger] l[j]).2,
    )
}

/// Order scored results best first; undefined similarities go last. The
/// result holds exactly the given entries.
pub fn sort_scored_desc(results: Vec<(String, u32, Option<i64>)>) -> (r: Vec<
    (String, u32, Option<i64>),
>)
    ensures
        r@.to_multiset() == results@.to_multiset(),
        r@.len() == results@.len(),
        scores_sorted(r@),
{
    broadcast use vstd::seq_lib::group_to_multiset_ensures;

    let mut rest = results;
    let ghost orig = rest@;
    let mut out: Vec<(String, u32, Option<i64>)> = Vec::new();
    proof {
        assert(out@.to_multiset().add(rest@.to_multiset()) =~= orig.to_multiset());
        assert(out@.to_multiset().len() + rest@.to_multiset().len() == orig.to_multiset().len());
    }
    while rest.len() > 0
        invariant
            out@.to_multiset().add(rest@.to_multiset()) == orig.to_multiset(),
            out@.len() + rest@.len() == orig.len(),
            scores_sorted(out@),
            forall|i: int, j: int|
                0 <= i < out@.len() && 0 <= j < rest@.len() ==> score_ge(
                    (#[trigger] out@[i]).2,
                    (#[trigger] rest@[j]).2,
                ),
        decreases rest@.len(),
    {
        let mut best: usize = 0;
        let mut k: usize = 1;
        while k < rest.len()
            invariant
                0 <= best < k <= rest@.len(),
                rest@.len() > 0,
                forall|j: int| 0 <= j < k ==> score_ge(
                    rest@[best as int].2,
                    (#[trigger] rest@[j]).2,
                ),
            decreases rest@.len() - k,
        {
            let better = match (rest[k].2, rest[best].2) {
                (Some(x), Some(y)) => x > y,
                (Some(_), None) => true,
                _ => false,
            };
            if better {
                best = k;
            }
            k = k + 1;
        }
        let ghost rest0 = rest@;
        let ghost out0 = out@;
        let x = rest.remove(best);
        out.push(x);
        proof {
            rest0.to_multiset_ensures();
            out0.to_multiset_ensures();
            assert(rest@ == rest0.remove(best as int));
            assert(rest@.to_multiset() == rest0.remove(best as int).to_multiset());
            assert(rest@.to_multiset() =~= rest0.to_multiset().remove(x));
            assert(out@ == out0.push(x));
            assert(out@.to_multiset() =~= out0.to_multiset().insert(x));
            assert(rest0.contains(x)) by {
                assert(rest0[best as int] == x);
            }
            assert(rest0.to_multiset().count(x) > 0);
            assert(out@.to_multiset().add(rest@.to_multiset()) =~= orig.to_multiset());
            assert forall|i: int, j: int|
                0 <= i < out@.len() && 0 <= j < rest@.len() implies score_ge(
                (#[trigger] out@[i]).2,
                (#[trigger] rest@[j]).2,
            ) by {
                if i < out0.len() {
                    assert(out@[i] == out0[i]);
                }
                if j < best {
                    assert(rest@[j] == rest0[j]);
                } else {
                    assert(rest@[j] == rest0[j + 1]);
                }
            }
        }
    }
    proof {
        orig.to_multiset_ensures();
        out@.to_multiset_ensures();
    }
    out
}

/// Image `i` of the store appears nowhere in the results, judged by id.
pub open spec fn id_unreported(
    db: Database,
    rs: Seq<(String, u32, Option<i64>)>,
    i: int,
) -> bool {
    forall|q: int| 0 <= q < rs.len() ==> (#[trigger] rs[q]).1 != db.images_view()[i].0
}

/// `e` reports one stored image faithfully: its path, its id, and its
/// similarity to the query vector `q`.
pub open spec fn entry_scored(db: Database, q: Seq<i64>, e: (String, u32, Option<i64>)) -> bool {
    exists|i: int| 0 <= i < db.images_view().len()
        && (#[trigger] db.images_view()[i]).1 == e.0@ && db.images_view()[i].0 == e.1
        && e.2 == score_spec(
        values_of_rows(rows_for(db.vectors_view(), db.images_view()[i].0)),
        q,
    )
}

/// Rank every stored image against the text query and keep the best ten:
/// results come back sorted by descending similarity, undefined similarity
/// last, each entry a stored image scored against the query vector of the
/// prompt; and when the store holds at most ten images, every one of them
/// is reported.
pub fn search_images(db: &Database, emb: &Embedding, prompt: &str) -> (r: Vec<
    (String, u32, Option<i64>),
>)
    requires
        db.wf(),
        emb.wf(),
    ensures
        scores_sorted(r@),
        r@.len() == (if db.images_view().len() <= 10 {
            db.images_view().len() as int
        } else {
            10int
        }),
        forall|j: int| 0 <= j < r@.len() ==> entry_scored(
            *db,
            from_ints(average_of(emb.rows(), emb.dims_spec(), tokens_of(prompt@))),
            #[trigger] r@[j],
        ),
        db.images_view().len() <= 10 ==> forall|i: int|
            #![trigger db.images_view()[i]]
            0 <= i < db.images_view().len() ==> exists|j: int|
                0 <= j < r@.len() && (#[trigger] r@[j]).1 == db.images_view()[i].0
                    && r@[j].0@ == db.images_view()[i].1 && r@[j].2 == score_spec(
                    values_of_rows(rows_for(db.vectors_view(), db.images_view()[i].0)),
                    from_ints(average_of(emb.rows(), emb.dims_spec(), tokens_of(prompt@))),
                ),
        forall|i: int, j: int|
            #![trigger db.images_view()[i], r@[j]]
            0 <= i < db.images_view().len() && 0 <= j < r@.len()
                && id_unreported(*db, r@, i) ==> score_ge(
                r@[j].2,
                score_spec(
                    values_of_rows(rows_for(db.vectors_view(), db.images_view()[i].0)),
                    from_ints(average_of(emb.rows(), emb.dims_spec(), tokens_of(prompt@))),
                ),
            ),
{
    broadcast use vstd::seq_lib::group_to_multiset_ensures;

    let q = emb.average_vector(prompt);
    proof {
        assert(q@ =~= from_ints(average_of(emb.rows(), emb.dims_spec(), tokens_of(
            prompt@,
        )))) by {
            let avg = average_of(emb.rows(), emb.dims_spec(), tokens_of(prompt@));
            assert(to_ints(q@) == avg);
            assert forall|i: int| 0 <= i < q@.len() implies q@[i] == from_ints(avg)[i] by {
                assert(to_ints(q@)[i] == q@[i] as int);
            }
        }
    }
    let scored = score_images(db, &q);
    let ghost scored0 = scored@;
    let mut sorted = sort_scored_desc(scored);
    proof {
        scored0.to_multiset_ensures();
        sorted@.to_multiset_ensures();
        assert forall|j: int| 0 <= j < sorted@.len() implies entry_scored(
            *db,
            q@,
            #[trigger] sorted@[j],
        ) by {
            assert(sorted@.contains(sorted@[j]));
            assert(sorted@.to_multiset().count(sorted@[j]) > 0);
            assert(scored0.to_multiset().count(sorted@[j]) > 0);
            assert(scored0.contains(sorted@[j]));
            let i = choose|i: int| 0 <= i < scored0.len() && scored0[i] == sorted@[j];
            assert(scored0[i].0@ == db.images_view()[i].1);
            assert(db.images_view()[i] == db.images_view()[i]);
        }
    }
    if sorted.len() > 10 {
        let ghost pre = sorted@;
        sorted.truncate(10);
        proof {
            assert(sorted@ =~= pre.take(10));
            assert forall|j: int| 0 <= j < sorted@.len() implies entry_scored(
                *db,
                q@,
                #[trigger] sorted@[j],
            ) by {
                assert(sorted@[j] == pre[j]);
                assert(0 <= j < pre.len());
                assert(entry_scored(*db, q@, pre[j]));
            }
            assert forall|i: int, j: int| 0 <= i < j < sorted@.len() implies score_ge(
                (#[trigger] sorted@[i]).2,
                (#[trigger] sorted@[j]).2,
            ) by {
                assert(sorted@[i] == pre[i]);
                assert(sorted@[j] == pre[j]);
            }
            scored0.to_multiset_ensures();
            pre.to_multiset_ensures();
            assert forall|i: int, j: int|
                #![trigger db.images_view()[i], sorted@[j]]
                0 <= i < db.images_view().len() && 0 <= j < sorted@.len()
                    && id_unreported(*db, sorted@, i) implies score_ge(
                sorted@[j].2,
                score_spec(
                    values_of_rows(rows_for(db.vectors_view(), db.images_view()[i].0)),
                    q@,
                ),
            ) by {
                let e = scored0[i];
                assert(e.1 == db.images_view()[i].0);
                assert(scored0.contains(e));
                assert(scored0.to_multiset().count(e) > 0);
                assert(pre.to_multiset().count(e) > 0);
                assert(pre.contains(e));
                let pos = choose|pos: int| 0 <= pos < pre.len() && pre[pos] == e;
                assert(pos >= 10) by {
                    if pos < 10 {
                        assert(sorted@[pos] == pre[pos]);
                        assert(sorted@[pos].1 == db.images_view()[i].0);
                    }
                }
                assert(score_ge(pre[j as int].2, pre[pos].2));
                assert(sorted@[j] == pre[j as int]);
            }
        }
        sorted
    } else {
        proof {
            assert forall|i: int| #![trigger db.images_view()[i]]
                0 <= i < db.images_view().len() implies exists|j: int|
                0 <= j < sorted@.len() && (#[trigger] sorted@[j]).1
                    == db.images_view()[i].0 && sorted@[j].0@ == db.images_view()[i].1
                    && sorted@[j].2 == score_spec(
                    values_of_rows(rows_for(db.vectors_view(), db.images_view()[i].0)),
                    q@,
                ) by {
                let e = scored0[i];
                assert(scored0.contains(e));
                assert(scored0.to_multiset().count(e) > 0);
                assert(sorted@.to_multiset().count(e) > 0);
                assert(sorted@.contains(e));
                let j = choose|j: int| 0 <= j < sorted@.len() && sorted@[j] == e;
                assert(sorted@[j].1 == db.images_view()[i].0);
            }
            assert forall|i: int, j: int|
                #![trigger db.images_view()[i], sorted@[j]]
                0 <= i < db.images_view().len() && 0 <= j < sorted@.len()
                    && id_unreported(*db, sorted@, i) implies score_ge(
                sorted@[j].2,
                score_spec(
                    values_of_rows(rows_for(db.vectors_view(), db.images_view()[i].0)),
                    q@,
                ),
            ) by {
                let e = scored0[i];
                assert(scored0.contains(e));
                assert(scored0.to_multiset().count(e) > 0);
                assert(sorted@.to_multiset().count(e) > 0);
                assert(sorted@.contains(e));
                let j2 = choose|j2: int| 0 <= j2 < sorted@.len() && sorted@[j2] == e;
                assert(sorted@[j2] == sorted@[j2]);
                assert(sorted@[j2].1 == db.images_view()[i].0);
            }
        }
        sorted
    }
}

/// One result line: the matched name, a separator, the path.
pub open spec fn line_of(name: Seq<char>, p: Seq<char>) -> Seq<char> {
    name + ": "@ + p
}

/// `e` is an honest hit: a path stored in the map under `name`, rendered
/// as a result line.
pub open spec fn hit_for(
    m: Map<Seq<char>, Set<Seq<char>>>,
    name: Seq<char>,
    e: Seq<char>,
) -> bool {
    exists|p: Seq<char>| #![trigger m[name].contains(p)] m.dom().contains(name)
        && m[name].contains(p) && e == line_of(name, p)
}

/// `e` is an honest predictive hit: a hit for some stored basename
/// beginning with the prefix.
pub open spec fn pref_hit(
    m: Map<Seq<char>, Set<Seq<char>>>,
    t: Trie,
    prefix: Seq<char>,
    e: Seq<char>,
) -> bool {
    exists|name: Seq<char>| #![trigger t.lookup(name)] t.lookup(name).len() > 0
        && prefix.is_prefix_of(name) && hit_for(m, name, e)
}

/// The line `e` stands somewhere in the results.
pub open spec fn reported_line(rs: Seq<String>, e: Seq<char>) -> bool {
    exists|j: int| 0 <= j < rs.len() && (#[trigger] rs[j])@ == e
}

fn make_line(name: &str, p: &str) -> (r: String)
    ensures
        r@ == line_of(name@, p@),
{
    let mut l = name.to_owned();
    l.append(": ");
    l.append(p);
    l
}

/// Answer a filename query: in plain mode, every path stored under exactly
/// that basename; with prefix search active, every path stored under any
/// basename beginning with the query. Every reported line is an honest hit,
/// and every stored hit is reported.
#[verifier::rlimit(80)]
pub fn on_click_file_search(app: &App, filename: &str) -> (r: Vec<String>)
    requires
        app.wf(),
    ensures
        !app.is_prefix_search_enabled ==> forall|j: int| 0 <= j < r@.len() ==> hit_for(
            app.map@,
            filename@,
            (#[trigger] r@[j])@,
        ),
        !app.is_prefix_search_enabled ==> forall|p: Seq<char>|
            app.map@.dom().contains(filename@) && #[trigger] app.map@[filename@].contains(p)
                ==> reported_line(r@, line_of(filename@, p)),
        !app.is_prefix_search_enabled ==> forall|j1: int, j2: int|
            0 <= j1 < j2 < r@.len() ==> (#[trigger] r@[j1])@ != (#[trigger] r@[j2])@,
        app.is_prefix_search_enabled ==> forall|j: int| 0 <= j < r@.len() ==> pref_hit(
            app.map@,
            trie_of(app.trie),
            filename@,
            (#[trigger] r@[j])@,
        ),
        app.is_prefix_search_enabled ==> forall|name: Seq<char>, p: Seq<char>|
            #![trigger trie_of(app.trie).lookup(name), app.map@[name].contains(p)]
            trie_of(app.trie).lookup(name).len() > 0 && filename@.is_prefix_of(name)
                && app.map@.dom().contains(name) && app.map@[name].contains(p)
                ==> reported_line(r@, line_of(name, p)),
{
    let mut r: Vec<String> = Vec::new();
    if !app.is_prefix_search_enabled {
        let files = app.map.exact_search(filename);
        let n = files.len();
        let mut j: usize = 0;
        while j < n
            invariant
                app.wf(),
                n == files@.len(),
                0 <= j <= n,
                r@.len() == j,
                n > 0 ==> app.map@.dom().contains(filename@) && path_set(files@)
                    == app.map@[filename@],
                forall|q: int| 0 <= q < j ==> (#[trigger] r@[q])@ == line_of(
                    filename@,
                    files@[q]@,
                ),
            decreases n - j,
        {
            proof {
                if !app.map@.dom().contains(filename@) {
                    assert(files@.len() == 0);
                }
            }
            let line = make_line(filename, files[j].as_str());
            r.push(line);
            j = j + 1;
        }
        proof {
            assert forall|q: int| 0 <= q < r@.len() implies hit_for(
                app.map@,
                filename@,
                (#[trigger] r@[q])@,
            ) by {
                assert(r@[q]@ == line_of(filename@, files@[q]@));
                assert(path_set(files@).contains(files@[q]@));
                assert(app.map@[filename@].contains(files@[q]@));
            }
            if app.map@.dom().contains(filename@) {
                assert forall|p: Seq<char>| #[trigger] app.map@[filename@].contains(p)
                    implies reported_line(r@, line_of(filename@, p)) by {
                    assert(path_set(files@).contains(p));
                    let q = choose|q: int| 0 <= q < files@.len() && files@[q]@ == p;
                    assert(r@[q]@ == line_of(filename@, p));
                }
            }
            assert forall|j1: int, j2: int| 0 <= j1 < j2 < r@.len()
                implies (#[trigger] r@[j1])@ != (#[trigger] r@[j2])@ by {
                assert(r@[j1]@ == line_of(filename@, files@[j1]@));
                assert(r@[j2]@ == line_of(filename@, files@[j2]@));
                assert(files@[j1]@ != files@[j2]@);
                crate::paths::lemma_concat_neq(filename@ + ": "@, files@[j1]@, files@[j2]@);
            }
        }
        r
    } else {
        let t = match &app.trie {
            SomeTrie::Trie(t) => t,
            SomeTrie::TrieBuilder(t) => t,
        };
        let names = t.predictive_search(filename);
        let nn = names.len();
        let mut i: usize = 0;
        while i < nn
            invariant
                app.wf(),
                app.is_prefix_search_enabled,
                *t == trie_of(app.trie),
                nn == names@.len(),
                0 <= i <= nn,
                forall|q: int| 0 <= q < names@.len() ==> t.lookup(
                    (#[trigger] names@[q])@,
                ).len() > 0 && filename@.is_prefix_of(names@[q]@),
                forall|k: Seq<char>| t.lookup(k).len() > 0 && filename@.is_prefix_of(k)
                    ==> exists|q: int| 0 <= q < names@.len() && (#[trigger] names@[q])@ == k,
                forall|q: int| 0 <= q < r@.len() ==> pref_hit(
                    app.map@,
                    *t,
                    filename@,
                    (#[trigger] r@[q])@,
                ),
                forall|ni: int, p: Seq<char>|
                    #![trigger names@[ni], app.map@[names@[ni]@].contains(p)]
                    0 <= ni < i && app.map@.dom().contains(names@[ni]@)
                        && app.map@[names@[ni]@].contains(p) ==> reported_line(
                        r@,
                        line_of(names@[ni]@, p),
                    ),
            decreases nn - i,
        {
            let files = app.map.exact_search(names[i].as_str());
            let fn_len = files.len();
            let ghost r0 = r@;
            let ghost name_v = names@[i as int]@;
            let mut j: usize = 0;
            while j < fn_len
                invariant
                    app.wf(),
                    app.is_prefix_search_enabled,
                    *t == trie_of(app.trie),
                    nn == names@.len(),
                    0 <= i < nn,
                    name_v == names@[i as int]@,
                    fn_len == files@.len(),
                    0 <= j <= fn_len,
                    fn_len > 0 ==> app.map@.dom().contains(name_v) && path_set(files@)
                        == app.map@[name_v],
                    t.lookup(name_v).len() > 0,
                    filename@.is_prefix_of(name_v),
                    r@.len() == r0.len() + j,
                    forall|q: int| 0 <= q < r0.len() ==> #[trigger] r@[q] == r0[q],
                    forall|q: int| r0.len() <= q < r@.len() ==> (#[trigger] r@[q])@
                        == line_of(name_v, files@[q - r0.len()]@),
                decreases fn_len - j,
            {
                proof {
                    if !app.map@.dom().contains(name_v) {
                        assert(files@.len() == 0);
                    }
                }
                let line = make_line(names[i].as_str(), files[j].as_str());
                r.push(line);
                j = j + 1;
            }
            proof {
                assert forall|q: int| 0 <= q < r@.len() implies pref_hit(
                    app.map@,
                    *t,
                    filename@,
                    (#[trigger] r@[q])@,
                ) by {
                    if q < r0.len() {
                        assert(r@[q] == r0[q]);
                        assert(pref_hit(app.map@, *t, filename@, r0[q]@));
                    } else {
                        let p = files@[q - r0.len()]@;
                        assert(r@[q]@ == line_of(name_v, p));
                        assert(path_set(files@).contains(p));
                        assert(app.map@[name_v].contains(p));
                        assert(hit_for(app.map@, name_v, r@[q]@));
                        assert(t.lookup(name_v).len() > 0);
                    }
                }
                assert forall|ni: int, p: Seq<char>|
                    #![trigger names@[ni], app.map@[names@[ni]@].contains(p)]
                    0 <= ni < i + 1 && app.map@.dom().contains(names@[ni]@)
                        && app.map@[names@[ni]@].contains(p) implies reported_line(
                    r@,
                    line_of(names@[ni]@, p),
                ) by {
                    if ni < i {
                        let q = choose|q: int| 0 <= q < r0.len() && (#[trigger] r0[q])@
                            == line_of(names@[ni]@, p);
                        assert(r@[q] == r0[q]);
                    } else {
                        assert(path_set(files@).contains(p));
                        let q = choose|q: int| 0 <= q < files@.len() && files@[q]@ == p;
                        assert(r@[r0.len() + q]@ == line_of(name_v, p));
                    }
                }
            }
            i = i + 1;
        }
        proof {
            assert forall|name: Seq<char>, p: Seq<char>|
                #![trigger trie_of(app.trie).lookup(name), app.map@[name].contains(p)]
                trie_of(app.trie).lookup(name).len() > 0 && filename@.is_prefix_of(name)
                    && app.map@.dom().contains(name) && app.map@[name].contains(p)
                    implies reported_line(r@, line_of(name, p)) by {
                let q = choose|q: int| 0 <= q < names@.len() && (#[trigger] names@[q])@
                    == name;
                assert(app.map@[names@[q]@].contains(p));
            }
        }
        r
    }
}

} // verus!
