//! The semantic store: a table of images (id, path, title) and a table of
//! vector scalars (id, image id, value), one row per vector element. Paths
//! are unique, ids are surrogate and assigned at persist time, vector rows
//! reference their image, and a multi-row insert is all-or-nothing.
use vstd::prelude::*;

verus! {

/// Why a store operation was refused.
#[derive(Clone, Copy, Debug, PartialEq, Eq, Structural)]
pub enum DbError {
    /// A uniqueness or foreign-key constraint would break.
    Constraint,
    /// The id space is exhausted.
    Full,
}

/// One scalar of one image's vector, stored as its own row.
#[derive(Clone, Copy, Debug, PartialEq, Eq, Structural)]
pub struct SemanticVectorElement {
    pub id: u32,
    pub image_id: u32,
    pub value: i64,
}

impl SemanticVectorElement {
    /// A row not yet persisted: no row id.
    pub fn new(image_id: u32, value: i64) -> (r: SemanticVectorElement)
        ensures
            r == (SemanticVectorElement { id: 0, image_id, value }),
    {
        SemanticVectorElement { id: 0, image_id, value }
    }
}

/// An image's whole vector, as rows.
pub struct SemanticVec(pub Vec<SemanticVectorElement>);

impl SemanticVec {
    pub fn new() -> (r: SemanticVec)
        ensures
            r.0@ == Seq::<SemanticVectorElement>::empty(),
    {
        SemanticVec(Vec::new())
    }

    pub fn push(&mut self, element: SemanticVectorElement)
        ensures
            final(self).0@ == old(self).0@.push(element),
    {
        self.0.push(element);
    }

    /// Wrap plain scalars as unpersisted rows, in order.
    pub fn from_vec(vec: Vec<i64>) -> (r: SemanticVec)
        ensures
            r.0@.len() == vec@.len(),
            forall|i: int| 0 <= i < vec@.len()
                ==> #[trigger] r.0@[i] == (SemanticVectorElement {
                    id: 0,
                    image_id: 0,
                    value: vec@[i],
                }),
    {
        let mut r = SemanticVec::new();
        let mut i: usize = 0;
        while i < vec.len()
            invariant
                0 <= i <= vec@.len(),
                r.0@.len() == i,
                forall|j: int| 0 <= j < i
                    ==> #[trigger] r.0@[j] == (SemanticVectorElement {
                        id: 0,
                        image_id: 0,
                        value: vec@[j],
                    }),
            decreases vec@.len() - i,
        {
            r.push(SemanticVectorElement::new(0, vec[i]));
            i = i + 1;
        }
        r
    }
}

/// An image record: id zero means "not yet persisted".
pub struct Image {
    pub id: u32,
    pub path: String,
    pub title: String,
    pub semantic_vector: SemanticVec,
}

impl Image {
    pub fn new(path: String, title: String) -> (r: Image)
        ensures
            r.id == 0,
            r.path@ == path@,
            r.title@ == title@,
            r.semantic_vector.0@ == Seq::<SemanticVectorElement>::empty(),
    {
        Image { id: 0, path, title, semantic_vector: SemanticVec::new() }
    }

    /// Adopt a vector, stamping this image's id onto every row.
    pub fn set_semantic_vector(&mut self, semantic_vector: SemanticVec)
        ensures
            final(self).id == old(self).id,
            final(self).path == old(self).path,
            final(self).title == old(self).title,
            final(self).semantic_vector.0@.len() == semantic_vector.0@.len(),
            forall|i: int| 0 <= i < semantic_vector.0@.len()
                ==> #[trigger] final(self).semantic_vector.0@[i]
                    == (SemanticVectorElement {
                    id: semantic_vector.0@[i].id,
                    image_id: old(self).id,
                    value: semantic_vector.0@[i].value,
                }),
    {
        let mut sv = semantic_vector;
        let my_id = self.id;
        let n = sv.0.len();
        let ghost orig = sv.0@;
        let mut i: usize = 0;
        while i < n
            invariant
                0 <= i <= n,
                n == sv.0@.len(),
                orig.len() == n,
                forall|j: int| i <= j < n ==> #[trigger] sv.0@[j] == orig[j],
                forall|j: int| 0 <= j < i
                    ==> #[trigger] sv.0@[j] == (SemanticVectorElement {
                        id: orig[j].id,
                        image_id: my_id,
                        value: orig[j].value,
                    }),
            decreases n - i,
        {
            let e = sv.0[i];
            sv.0[i] = SemanticVectorElement { id: e.id, image_id: my_id, value: e.value };
            i = i + 1;
        }
        self.semantic_vector = sv;
    }
}

/// The rows of `vs` that belong to image `id`, in insertion order.
pub open spec fn rows_for(vs: Seq<SemanticVectorElement>, id: u32) -> Seq<SemanticVectorElement>
    decreases vs.len(),
{
    if vs.len() == 0 {
        Seq::empty()
    } else if vs.last().image_id == id {
        rows_for(vs.drop_last(), id).push(vs.last())
    } else {
        rows_for(vs.drop_last(), id)
    }
}

/// What one transactional append of vector rows means: either every row
/// was stamped with a fresh id and stored — possible exactly when each row
/// references a stored image and ids remain — or nothing at all changed.
pub open spec fn vector_rows_save_post(
    rows: Seq<SemanticVectorElement>,
    db0: Database,
    db1: Database,
    r: Result<(), DbError>,
) -> bool {
    match r {
        Ok(()) => {
            &&& (forall|i: int| 0 <= i < rows.len()
                ==> db0.has_image_id((#[trigger] rows[i]).image_id))
            &&& db0.next_vector_id_spec() as int + rows.len() <= u32::MAX as int
            &&& db1.images_view() == db0.images_view()
            &&& db1.vectors_view() == db0.vectors_view() + Seq::new(
                rows.len(),
                |i: int| SemanticVectorElement {
                    id: (db0.next_vector_id_spec() + i) as u32,
                    image_id: rows[i].image_id,
                    value: rows[i].value,
                },
            )
        },
        Err(_) => {
            &&& db1 == db0
            &&& ((exists|i: int| 0 <= i < rows.len()
                && !db0.has_image_id((#[trigger] rows[i]).image_id))
                || db0.next_vector_id_spec() as int + rows.len() > u32::MAX as int)
        },
    }
}

/// What one store of an image means: on success — possible exactly when the
/// path is fresh and ids remain — the image row and all its vector rows are
/// appended, the image takes its generated id and stamps it onto its own
/// vector; on failure nothing at all changed.
pub open spec fn image_save_post(
    pre: Image,
    db0: Database,
    post: Image,
    db1: Database,
    r: Result<u32, DbError>,
) -> bool {
    match r {
        Ok(id) => {
            &&& !db0.has_path(pre.path@)
            &&& id == db0.next_image_id_spec()
            &&& id < u32::MAX
            &&& db0.next_vector_id_spec() as int + pre.semantic_vector.0@.len()
                <= u32::MAX as int
            &&& post.id == id
            &&& post.path == pre.path
            &&& post.title == pre.title
            &&& post.semantic_vector.0@.len() == pre.semantic_vector.0@.len()
            &&& (forall|i: int| 0 <= i < pre.semantic_vector.0@.len()
                ==> #[trigger] post.semantic_vector.0@[i] == (SemanticVectorElement {
                    id: pre.semantic_vector.0@[i].id,
                    image_id: id,
                    value: pre.semantic_vector.0@[i].value,
                }))
            &&& db1.images_view() == db0.images_view().push((id, pre.path@, pre.title@))
            &&& db1.has_path(pre.path@)
            &&& db1.vectors_view() == db0.vectors_view() + Seq::new(
                pre.semantic_vector.0@.len(),
                |i: int| SemanticVectorElement {
                    id: (db0.next_vector_id_spec() + i) as u32,
                    image_id: id,
                    value: pre.semantic_vector.0@[i].value,
                },
            )
        },
        Err(e) => {
            &&& db1 == db0
            &&& post == pre
            &&& (e == DbError::Constraint ==> db0.has_path(pre.path@))
            &&& (db0.has_path(pre.path@) || db0.next_image_id_spec() == u32::MAX
                || db0.next_vector_id_spec() as int + pre.semantic_vector.0@.len()
                    > u32::MAX as int)
        },
    }
}

/// The embedded relational store, modelled exactly: its two tables and the
/// next free surrogate ids.
pub struct Database {
    images: Vec<(u32, String, String)>,
    vectors: Vec<SemanticVectorElement>,
    next_image_id: u32,
    next_vector_id: u32,
}

impl Database {
    pub closed spec fn images_view(self) -> Seq<(u32, Seq<char>, Seq<char>)> {
        self.images@.map_values(|r: (u32, String, String)| (r.0, r.1@, r.2@))
    }

    pub closed spec fn vectors_view(self) -> Seq<SemanticVectorElement> {
        self.vectors@
    }

    pub closed spec fn next_image_id_spec(self) -> u32 {
        self.next_image_id
    }

    pub closed spec fn next_vector_id_spec(self) -> u32 {
        self.next_vector_id
    }

    pub open spec fn has_image_id(self, id: u32) -> bool {
        exists|i: int| 0 <= i < self.images_view().len()
            && (#[trigger] self.images_view()[i]).0 == id
    }

    pub open spec fn has_path(self, p: Seq<char>) -> bool {
        exists|i: int| 0 <= i < self.images_view().len()
            && (#[trigger] self.images_view()[i]).1 == p
    }

    pub open spec fn index_of_path(self, p: Seq<char>) -> int {
        choose|i: int| 0 <= i < self.images_view().len()
            && (#[trigger] self.images_view()[i]).1 == p
    }

    /// Ids and paths unique, ids in range, vector rows reference an image.
    pub closed spec fn wf(self) -> bool {
        &&& 1 <= self.next_image_id
        &&& 1 <= self.next_vector_id
        &&& forall|i: int, j: int|
            0 <= i < j < self.images_view().len()
                ==> (#[trigger] self.images_view()[i]).0 != (#[trigger] self.images_view()[j]).0
        &&& forall|i: int, j: int|
            0 <= i < j < self.images_view().len()
                ==> (#[trigger] self.images_view()[i]).1 != (#[trigger] self.images_view()[j]).1
        &&& forall|i: int| 0 <= i < self.images_view().len()
            ==> 1 <= (#[trigger] self.images_view()[i]).0 < self.next_image_id
        &&& forall|i: int| 0 <= i < self.vectors_view().len()
            ==> self.has_image_id((#[trigger] self.vectors_view()[i]).image_id)
    }

    /// A fresh, empty store: the schema made, nothing in the tables.
    pub fn new() -> (r: Result<Database, DbError>)
        ensures
            r.is_ok(),
            r.unwrap().wf(),
            r.unwrap().images_view() == Seq::<(u32, Seq<char>, Seq<char>)>::empty(),
            r.unwrap().vectors_view() == Seq::<SemanticVectorElement>::empty(),
    {
        let db = Database {
            images: Vec::new(),
            vectors: Vec::new(),
            next_image_id: 1,
            next_vector_id: 1,
        };
        proof {
            assert(db.images_view() =~= Seq::<(u32, Seq<char>, Seq<char>)>::empty());
        }
        Ok(db)
    }

    /// Consume the handle: closing is explicit, and a closed store cannot be
    /// touched again.
    pub fn close(self) {
    }

    /// The dedup predicate: a committed path is always found.
    pub fn exists_image_by_path(&self, path: &str) -> (r: Result<bool, DbError>)
        requires
            self.wf(),
        ensures
            r.is_ok(),
            r.unwrap() == self.has_path(path@),
    {
        match self.find_path(path) {
            Some(_) => Ok(true),
            None => Ok(false),
        }
    }

    /// Every stored image id, in insertion order.
    pub fn select_all_images(&self) -> (r: Vec<u32>)
        ensures
            r@.len() == self.images_view().len(),
            forall|i: int| 0 <= i < r@.len()
                ==> #[trigger] r@[i] == self.images_view()[i].0,
    {
        let n = self.images.len();
        let mut r: Vec<u32> = Vec::new();
        let mut i: usize = 0;
        while i < n
            invariant
                n == self.images@.len(),
                0 <= i <= n,
                r@.len() == i,
                forall|j: int| 0 <= j < i ==> #[trigger] r@[j] == self.images_view()[j].0,
            decreases n - i,
        {
            r.push(self.images[i].0);
            i = i + 1;
        }
        r
    }

    fn find_path(&self, path: &str) -> (r: Option<usize>)
        requires
            self.wf(),
        ensures
            match r {
                Some(i) => i < self.images_view().len()
                    && self.images_view()[i as int].1 == path@,
                None => !self.has_path(path@),
            },
    {
        let p = path.to_owned();
        let n = self.images.len();
        let mut i: usize = 0;
        while i < n
            invariant
                p@ == path@,
                n == self.images@.len(),
                0 <= i <= n,
                forall|j: int| 0 <= j < i ==> (#[trigger] self.images_view()[j]).1 != path@,
            decreases n - i,
        {
            proof {
                assert(self.images_view()[i as int].1 == self.images@[i as int].1@);
            }
            if self.images[i].1 == p {
                return Some(i);
            }
            i = i + 1;
        }
        None
    }

    /// The full record stored under a path: id, path, title, and the
    /// vector rows that reference it, in insertion order.
    pub fn select_image_by_path(&self, path: &str) -> (r: Option<Image>)
        requires
            self.wf(),
        ensures
            r.is_some() <==> self.has_path(path@),
            r.is_some() ==> {
                let i = self.index_of_path(path@);
                &&& r.unwrap().id == self.images_view()[i].0
                &&& r.unwrap().path@ == path@
                &&& r.unwrap().title@ == self.images_view()[i].2
                &&& r.unwrap().semantic_vector.0@ == rows_for(
                    self.vectors_view(),
                    self.images_view()[i].0,
                )
            },
    {
        match self.find_path(path) {
            None => None,
            Some(i) => {
                proof {
                    let j = self.index_of_path(path@);
                    assert(self.has_path(path@));
                    assert(0 <= j < self.images_view().len()
                        && self.images_view()[j].1 == path@);
                    if j != i as int {
                        assert(self.images_view()[j].1 != self.images_view()[i as int].1);
                    }
                }
                let id = self.images[i].0;
                let title = self.images[i].2.clone();
                let n = self.vectors.len();
                let mut sv: Vec<SemanticVectorElement> = Vec::new();
                let mut k: usize = 0;
                proof {
                    assert(self.vectors@.take(0) =~= Seq::<SemanticVectorElement>::empty());
                }
                while k < n
                    invariant
                        n == self.vectors@.len(),
                        0 <= k <= n,
                        sv@ == rows_for(self.vectors@.take(k as int), id),
                    decreases n - k,
                {
                    proof {
                        assert(self.vectors@.take(k as int + 1).drop_last() =~= self.vectors@
                            .take(k as int));
                        assert(self.vectors@.take(k as int + 1).last()
                            == self.vectors@[k as int]);
                    }
                    if self.vectors[k].image_id == id {
                        sv.push(self.vectors[k]);
                    }
                    k = k + 1;
                }
                proof {
                    assert(self.vectors@.take(n as int) =~= self.vectors@);
                    assert(self.images_view()[i as int].2 == self.images@[i as int].2@);
                }
                Some(Image {
                    id,
                    path: self.images[i].1.clone(),
                    title,
                    semantic_vector: SemanticVec(sv),
                })
            },
        }
    }

    /// Append vector rows inside one transaction: either every row is
    /// stamped with a fresh id and stored, or — a row referencing no stored
    /// image, or no ids left — nothing at all changes. (transactional save)
    pub fn insert_vector_rows(&mut self, rows: &Vec<SemanticVectorElement>) -> (r: Result<
        (),
        DbError,
    >)
        requires
            old(self).wf(),
        ensures
            final(self).wf(),
            final(self).images_view() == old(self).images_view(),
            vector_rows_save_post(rows@, *old(self), *final(self), r),
    {
        let n = rows.len();
        // validate everything before touching the tables: all-or-nothing
        if n > (u32::MAX - self.next_vector_id) as usize {
            return Err(DbError::Full);
        }
        let mut i: usize = 0;
        while i < n
            invariant
                self.wf(),
                n == rows@.len(),
                0 <= i <= n,
                forall|j: int| 0 <= j < i
                    ==> self.has_image_id((#[trigger] rows@[j]).image_id),
            decreases n - i,
        {
            if !self.image_id_exists(rows[i].image_id) {
                return Err(DbError::Constraint);
            }
            i = i + 1;
        }
        let ghost old_db = *self;
        let base = self.next_vector_id;
        let mut k: usize = 0;
        while k < n
            invariant
                n == rows@.len(),
                0 <= k <= n,
                base as int + n <= u32::MAX as int,
                self.images@ == old_db.images@,
                self.next_image_id == old_db.next_image_id,
                self.next_vector_id as int == base as int + k,
                self.vectors@.len() == old_db.vectors@.len() + k,
                forall|j: int| 0 <= j < old_db.vectors@.len()
                    ==> #[trigger] self.vectors@[j] == old_db.vectors@[j],
                forall|j: int| 0 <= j < k
                    ==> #[trigger] self.vectors@[old_db.vectors@.len() + j]
                        == (SemanticVectorElement {
                        id: (base + j) as u32,
                        image_id: rows@[j].image_id,
                        value: rows@[j].value,
                    }),
            decreases n - k,
        {
            let row = rows[k];
            self.vectors.push(SemanticVectorElement {
                id: self.next_vector_id,
                image_id: row.image_id,
                value: row.value,
            });
            self.next_vector_id = self.next_vector_id + 1;
            k = k + 1;
        }
        proof {
            assert(self.images_view() == old_db.images_view());
            let stamped = Seq::new(
                rows@.len(),
                |i: int| SemanticVectorElement {
                    id: (base + i) as u32,
                    image_id: rows@[i].image_id,
                    value: rows@[i].value,
                },
            );
            assert(self.vectors@.len() == old_db.vectors@.len() + rows@.len());
            assert forall|j: int| 0 <= j < self.vectors@.len() implies #[trigger] self.vectors@[j]
                == (old_db.vectors@ + stamped)[j] by {
                if j < old_db.vectors@.len() {
                } else {
                    let q = j - old_db.vectors@.len();
                    assert(self.vectors@[old_db.vectors@.len() + q] == (SemanticVectorElement {
                        id: (base + q) as u32,
                        image_id: rows@[q].image_id,
                        value: rows@[q].value,
                    }));
                    assert(stamped[q] == (SemanticVectorElement {
                        id: (base + q) as u32,
                        image_id: rows@[q].image_id,
                        value: rows@[q].value,
                    }));
                }
            }
            assert(self.vectors_view() =~= old_db.vectors_view() + stamped);
            assert forall|j: int| 0 <= j < self.vectors_view().len() implies self.has_image_id(
                (#[trigger] self.vectors_view()[j]).image_id,
            ) by {
                if j < old_db.vectors@.len() {
                    assert(old_db.has_image_id(old_db.vectors@[j].image_id));
                    let w = choose|w: int| 0 <= w < old_db.images_view().len()
                        && (#[trigger] old_db.images_view()[w]).0
                            == old_db.vectors@[j].image_id;
                    assert(self.images_view()[w].0 == old_db.vectors@[j].image_id);
                } else {
                    let q = j - old_db.vectors@.len();
                    assert(old_db.has_image_id(rows@[q].image_id));
                    let w = choose|w: int| 0 <= w < old_db.images_view().len()
                        && (#[trigger] old_db.images_view()[w]).0 == rows@[q].image_id;
                    assert(self.images_view()[w].0 == rows@[q].image_id);
                }
            }
            assert(self.wf());
        }
        Ok(())
    }

    fn image_id_exists(&self, id: u32) -> (r: bool)
        ensures
            r == self.has_image_id(id),
    {
        let n = self.images.len();
        let mut i: usize = 0;
        while i < n
            invariant
                n == self.images@.len(),
                0 <= i <= n,
                forall|j: int| 0 <= j < i ==> (#[trigger] self.images_view()[j]).0 != id,
            decreases n - i,
        {
            proof {
                assert(self.images_view()[i as int].0 == self.images@[i as int].0);
            }
            if self.images[i].0 == id {
                return true;
            }
            i = i + 1;
        }
        false
    }
}

/// Anything that can store itself into the database in one call and report
/// a row id. The store's invariant is kept.
pub trait Save: core::marker::Sized {
    /// The exact meaning of one store of this item: how the tables and the
    /// item itself change, and on which states each outcome comes.
    spec fn save_post(
        pre: Self,
        db0: Database,
        post: Self,
        db1: Database,
        r: Result<u32, DbError>,
    ) -> bool;

    fn save(&mut self, db: &mut Database) -> (r: Result<u32, DbError>)
        requires
            old(db).wf(),
        ensures
            final(db).wf(),
            Self::save_post(*old(self), *old(db), *final(self), *final(db), r),
    ;
}

impl Save for Image {
    open spec fn save_post(
        pre: Image,
        db0: Database,
        post: Image,
        db1: Database,
        r: Result<u32, DbError>,
    ) -> bool {
        image_save_post(pre, db0, post, db1, r)
    }

    fn save(&mut self, db: &mut Database) -> (r: Result<u32, DbError>)
        ensures
            final(db).wf(),
            image_save_post(*old(self), *old(db), *final(self), *final(db), r),
    {
        self.save_into(db)
    }
}

impl Save for SemanticVec {
    open spec fn save_post(
        pre: SemanticVec,
        db0: Database,
        post: SemanticVec,
        db1: Database,
        r: Result<u32, DbError>,
    ) -> bool {
        &&& post == pre
        &&& match r {
            Ok(v) => v == 0 && vector_rows_save_post(pre.0@, db0, db1, Ok(())),
            Err(e) => vector_rows_save_post(pre.0@, db0, db1, Err(e)),
        }
    }

    fn save(&mut self, db: &mut Database) -> (r: Result<u32, DbError>)
        ensures
            final(db).wf(),
            Self::save_post(*old(self), *old(db), *final(self), *final(db), r),
    {
        match db.insert_vector_rows(&self.0) {
            Ok(()) => Ok(0),
            Err(e) => Err(e),
        }
    }
}

impl Save for Vec<SemanticVectorElement> {
    open spec fn save_post(
        pre: Vec<SemanticVectorElement>,
        db0: Database,
        post: Vec<SemanticVectorElement>,
        db1: Database,
        r: Result<u32, DbError>,
    ) -> bool {
        &&& post == pre
        &&& match r {
            Ok(v) => v == 0 && vector_rows_save_post(pre@, db0, db1, Ok(())),
            Err(e) => vector_rows_save_post(pre@, db0, db1, Err(e)),
        }
    }

    fn save(&mut self, db: &mut Database) -> (r: Result<u32, DbError>)
        ensures
            final(db).wf(),
            Self::save_post(*old(self), *old(db), *final(self), *final(db), r),
    {
        match db.insert_vector_rows(self) {
            Ok(()) => Ok(0),
            Err(e) => Err(e),
        }
    }
}

/// The items of a list were stored one after another: each step is one
/// `save_post` transition, chained through intermediate store states.
pub open spec fn saved_all<T: Save>(
    pre: Seq<T>,
    db0: Database,
    post: Seq<T>,
    db1: Database,
) -> bool
    decreases pre.len(),
{
    if pre.len() == 0 {
        post.len() == 0 && db1 == db0
    } else {
        &&& post.len() == pre.len()
        &&& exists|mid: Database, r: Result<u32, DbError>|
            #![trigger T::save_post(pre.first(), db0, post.first(), mid, r)]
            T::save_post(pre.first(), db0, post.first(), mid, r) && saved_all(
                pre.drop_first(),
                mid,
                post.drop_first(),
                db1,
            )
    }
}

/// Extending a finished chain of stores by one more store keeps it a chain.
proof fn lemma_saved_all_snoc<T: Save>(
    pre: Seq<T>,
    db0: Database,
    post: Seq<T>,
    db1: Database,
    x: T,
    y: T,
    db2: Database,
    r: Result<u32, DbError>,
)
    requires
        saved_all(pre, db0, post, db1),
        T::save_post(x, db1, y, db2, r),
    ensures
        saved_all(pre.push(x), db0, post.push(y), db2),
    decreases pre.len(),
{
    if pre.len() == 0 {
        assert(post.len() == 0 && db1 == db0);
        assert(pre.push(x).first() == x);
        assert(post.push(y).first() == y);
        assert(pre.push(x).drop_first() =~= Seq::<T>::empty());
        assert(post.push(y).drop_first() =~= Seq::<T>::empty());
        assert(T::save_post(pre.push(x).first(), db0, post.push(y).first(), db2, r));
        assert(saved_all(pre.push(x).drop_first(), db2, post.push(y).drop_first(), db2));
    } else {
        let (mid, rr): (Database, Result<u32, DbError>) = choose|
            mid: Database,
            rr: Result<u32, DbError>,
        |
            #![trigger T::save_post(pre.first(), db0, post.first(), mid, rr)]
            T::save_post(pre.first(), db0, post.first(), mid, rr) && saved_all(
                pre.drop_first(),
                mid,
                post.drop_first(),
                db1,
            );
        lemma_saved_all_snoc::<T>(pre.drop_first(), mid, post.drop_first(), db1, x, y, db2, r);
        assert(pre.push(x).first() == pre.first());
        assert(post.push(y).first() == post.first());
        assert(pre.push(x).drop_first() =~= pre.drop_first().push(x));
        assert(post.push(y).drop_first() =~= post.drop_first().push(y));
        assert(T::save_post(pre.push(x).first(), db0, post.push(y).first(), mid, rr));
    }
}

impl Database {
    /// Store an item, discarding the row id: the item and the tables change
    /// exactly as the item's one store transition says.
    pub fn save<T: Save>(&mut self, item: &mut T)
        requires
            old(self).wf(),
        ensures
            final(self).wf(),
            exists|r: Result<u32, DbError>|
                #[trigger] T::save_post(*old(item), *old(self), *final(item), *final(self), r),
    {
        let r = item.save(self);
        proof {
            assert(T::save_post(*old(item), *old(self), *item, *self, r));
        }
    }

    /// Store every item of a list in order: the outcome is a chain of the
    /// items' store transitions.
    pub fn save_all<T: Save>(&mut self, items: &mut Vec<T>)
        requires
            old(self).wf(),
        ensures
            final(self).wf(),
            saved_all(old(items)@, *old(self), final(items)@, *final(self)),
    {
        let n = items.len();
        let mut i: usize = 0;
        proof {
            assert(old(items)@.take(0) =~= Seq::<T>::empty());
            assert(items@.take(0) =~= Seq::<T>::empty());
        }
        while i < n
            invariant
                self.wf(),
                n == items@.len(),
                items@.len() == old(items)@.len(),
                0 <= i <= n,
                forall|j: int| i <= j < n ==> #[trigger] items@[j] == old(items)@[j],
                saved_all(old(items)@.take(i as int), *old(self), items@.take(i as int), *self),
            decreases n - i,
        {
            let ghost pre_done = items@.take(i as int);
            let ghost pre_db = *self;
            let ghost pre_item = items@[i as int];
            let item = &mut items[i];
            let r = item.save(self);
            proof {
                assert(pre_item == old(items)@[i as int]);
                assert(T::save_post(pre_item, pre_db, items@[i as int], *self, r));
                assert(items@.take(i as int) =~= pre_done);
                lemma_saved_all_snoc::<T>(
                    old(items)@.take(i as int),
                    *old(self),
                    pre_done,
                    pre_db,
                    old(items)@[i as int],
                    items@[i as int],
                    *self,
                    r,
                );
                assert(old(items)@.take(i as int + 1) =~= old(items)@.take(i as int).push(
                    old(items)@[i as int],
                ));
                assert(items@.take(i as int + 1) =~= items@.take(i as int).push(
                    items@[i as int],
                ));
            }
            i = i + 1;
        }
        proof {
            assert(old(items)@.take(n as int) =~= old(items)@);
            assert(items@.take(n as int) =~= items@);
        }
    }
}

impl Image {
    /// Persist this image and its whole vector as one logical unit: the
    /// image row and every vector row are stored together, or — the path
    /// already present, or the id space exhausted — nothing changes at all.
    pub fn save_into(&mut self, db: &mut Database) -> (r: Result<u32, DbError>)
        requires
            old(db).wf(),
        ensures
            final(db).wf(),
            image_save_post(*old(self), *old(db), *final(self), *final(db), r),
    {
        match db.exists_image_by_path(self.path.as_str()) {
            Ok(true) => {
                return Err(DbError::Constraint);
            },
            Ok(false) => {
            },
            Err(e) => {
                return Err(e);
            },
        }
        if db.next_image_id == u32::MAX {
            return Err(DbError::Full);
        }
        let vlen = self.semantic_vector.0.len();
        if vlen > (u32::MAX - db.next_vector_id) as usize {
            return Err(DbError::Full);
        }
        let ghost db0 = *db;
        let id = db.next_image_id;
        db.images.push((id, self.path.clone(), self.title.clone()));
        db.next_image_id = id + 1;
        proof {
            assert(db.images_view() =~= db0.images_view().push((
                id,
                self.path@,
                self.title@,
            )));
            let iv = db.images_view();
            let n0 = db0.images_view().len() as int;
            assert forall|i: int, j: int| 0 <= i < j < iv.len() implies (#[trigger] iv[i]).0
                != (#[trigger] iv[j]).0 by {
                if j == n0 {
                    assert(db0.images_view()[i] == iv[i]);
                }
            }
            assert forall|i: int, j: int| 0 <= i < j < iv.len() implies (#[trigger] iv[i]).1
                != (#[trigger] iv[j]).1 by {
                if j == n0 {
                    assert(db0.images_view()[i] == iv[i]);
                    assert(db0.has_path(iv[i].1) == db0.has_path(iv[i].1));
                }
            }
            assert forall|i: int| 0 <= i < db.vectors_view().len() implies db.has_image_id(
                (#[trigger] db.vectors_view()[i]).image_id,
            ) by {
                assert(db0.has_image_id(db0.vectors_view()[i].image_id));
                let w = choose|w: int| 0 <= w < db0.images_view().len()
                    && (#[trigger] db0.images_view()[w]).0 == db0.vectors_view()[i].image_id;
                assert(db.images_view()[w].0 == db0.vectors_view()[i].image_id);
            }
            assert(db.wf());
            assert(db.images_view()[n0].0 == id);
            assert(db.has_image_id(id));
            assert(db.has_path(self.path@)) by {
                assert(db.images_view()[n0].1 == self.path@);
            }
        }
        self.id = id;
        let mut k: usize = 0;
        let n = vlen;
        let ghost orig = self.semantic_vector.0@;
        while k < n
            invariant
                0 <= k <= n,
                n == self.semantic_vector.0@.len(),
                orig.len() == n,
                self.id == id,
                self.path == old(self).path,
                self.title == old(self).title,
                forall|j: int| k <= j < n
                    ==> #[trigger] self.semantic_vector.0@[j] == orig[j],
                forall|j: int| 0 <= j < k
                    ==> #[trigger] self.semantic_vector.0@[j] == (SemanticVectorElement {
                        id: orig[j].id,
                        image_id: id,
                        value: orig[j].value,
                    }),
            decreases n - k,
        {
            let e = self.semantic_vector.0[k];
            self.semantic_vector.0[k] = SemanticVectorElement {
                id: e.id,
                image_id: id,
                value: e.value,
            };
            k = k + 1;
        }
        let ghost db1 = *db;
        match db.insert_vector_rows(&self.semantic_vector.0) {
            Ok(()) => {
                proof {
                    assert(db.vectors_view() =~= db0.vectors_view() + Seq::new(
                        orig.len(),
                        |i: int| SemanticVectorElement {
                            id: (db0.next_vector_id_spec() + i) as u32,
                            image_id: id,
                            value: orig[i].value,
                        },
                    )) by {
                        let stamped = Seq::new(
                            self.semantic_vector.0@.len(),
                            |i: int| SemanticVectorElement {
                                id: (db1.next_vector_id_spec() + i) as u32,
                                image_id: self.semantic_vector.0@[i].image_id,
                                value: self.semantic_vector.0@[i].value,
                            },
                        );
                        assert(db.vectors_view() == db1.vectors_view() + stamped);
                        assert(db1.vectors_view() == db0.vectors_view());
                        assert(db1.next_vector_id_spec() == db0.next_vector_id_spec());
                    }
                }
                Ok(id)
            },
            Err(e) => {
                proof {
                    assert(forall|i: int| 0 <= i < self.semantic_vector.0@.len()
                        ==> (#[trigger] self.semantic_vector.0@[i]).image_id == id);
                    assert(db1.has_image_id(id));
                    assert(false);
                }
                Err(e)
            },
        }
    }
}

impl Database {
    /// How many images are stored.
    pub fn image_count(&self) -> (r: usize)
        ensures
            r == self.images_view().len(),
    {
        self.images.len()
    }

    /// The id and path of the image at a position.
    pub fn image_at(&self, i: usize) -> (r: (u32, String))
        requires
            i < self.images_view().len(),
        ensures
            r.0 == self.images_view()[i as int].0,
            r.1@ == self.images_view()[i as int].1,
    {
        proof {
            assert(self.images_view()[i as int].1 == self.images@[i as int].1@);
        }
        (self.images[i].0, self.images[i].1.clone())
    }

    /// The scalars of one image's stored vector, in insertion order.
    pub fn vector_values_for(&self, id: u32) -> (r: Vec<i64>)
        ensures
            r@ == rows_for(self.vectors_view(), id).map_values(
                |e: SemanticVectorElement| e.value,
            ),
    {
        let n = self.vectors.len();
        let mut r: Vec<i64> = Vec::new();
        let mut k: usize = 0;
        proof {
            assert(self.vectors@.take(0) =~= Seq::<SemanticVectorElement>::empty());
            assert(r@ =~= rows_for(self.vectors@.take(0), id).map_values(
                |e: SemanticVectorElement| e.value,
            ));
        }
        while k < n
            invariant
                n == self.vectors@.len(),
                0 <= k <= n,
                r@ == rows_for(self.vectors@.take(k as int), id).map_values(
                    |e: SemanticVectorElement| e.value,
                ),
            decreases n - k,
        {
            proof {
                assert(self.vectors@.take(k as int + 1).drop_last() =~= self.vectors@.take(
                    k as int,
                ));
                assert(self.vectors@.take(k as int + 1).last() == self.vectors@[k as int]);
                if self.vectors@[k as int].image_id == id {
                    assert(rows_for(self.vectors@.take(k as int + 1), id).map_values(
                        |e: SemanticVectorElement| e.value,
                    ) =~= rows_for(self.vectors@.take(k as int), id).map_values(
                        |e: SemanticVectorElement| e.value,
                    ).push(self.vectors@[k as int].value));
                }
            }
            if self.vectors[k].image_id == id {
                r.push(self.vectors[k].value);
            }
            k = k + 1;
        }
        proof {
            assert(self.vectors@.take(n as int) =~= self.vectors@);
        }
        r
    }
}

} // verus!
