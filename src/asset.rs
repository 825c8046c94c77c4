//! Asset ids shared between a server and its clients.
use vstd::prelude::*;

use crate::db::name_views;

verus! {

/// A unique identifier for an asset.
pub type AssetID = usize;

/// The kinds of game asset.
#[derive(Clone, Copy, Debug, PartialEq, Eq, Structural)]
pub enum Type {
    /// A sprite sheet.
    SpriteSheet,
    /// An animation.
    Animation,
}

/// A database of asset ids: it stores no assets, only their names and types.
pub struct ServerDb {
    names: Vec<String>,
    by_id: Vec<Type>,
}

impl ServerDb {
    /// The asset names, by id.
    pub closed spec fn spec_names(&self) -> Seq<Seq<char>> {
        name_views(self.names@)
    }

    /// The asset types, by id.
    pub closed spec fn spec_types(&self) -> Seq<Type> {
        self.by_id@
    }

    pub open spec fn wf(&self) -> bool {
        self.spec_names().len() == self.spec_types().len()
    }

    /// Build the database from the names listed in an asset manifest: the
    /// sprite sheets first, then the animations, numbered in that order.
    pub fn from_manifest(sprite_sheets: &Vec<String>, anims: &Vec<String>) -> (r: ServerDb)
        requires
            sprite_sheets@.len() + anims@.len() <= usize::MAX,
        ensures
            r.wf(),
            r.spec_names() == name_views(sprite_sheets@) + name_views(anims@),
            r.spec_types() == Seq::new(sprite_sheets@.len(), |i: int| Type::SpriteSheet) + Seq::new(
                anims@.len(),
                |i: int| Type::Animation,
            ),
    {
        let mut db = ServerDb { names: Vec::new(), by_id: Vec::new() };
        let mut i: usize = 0;
        while i < sprite_sheets.len()
            invariant
                i <= sprite_sheets@.len(),
                db.spec_names() == name_views(sprite_sheets@.subrange(0, i as int)),
                db.spec_types() == Seq::new(i as nat, |k: int| Type::SpriteSheet),
            decreases sprite_sheets@.len() - i,
        {
            let ghost before = db.names@;
            db.names.push(sprite_sheets[i].clone());
            db.by_id.push(Type::SpriteSheet);
            assert(sprite_sheets@.subrange(0, i + 1) =~= sprite_sheets@.subrange(0, i as int).push(sprite_sheets@[i as int]));
            assert(name_views(db.names@) =~= name_views(before).push(sprite_sheets@[i as int]@));
            assert(name_views(sprite_sheets@.subrange(0, i + 1)) =~= name_views(sprite_sheets@.subrange(0, i as int)).push(sprite_sheets@[i as int]@));
            assert(db.spec_types() =~= Seq::new((i + 1) as nat, |k: int| Type::SpriteSheet));
            i += 1;
        }
        let n = sprite_sheets.len();
        let mut i: usize = 0;
        while i < anims.len()
            invariant
                i <= anims@.len(),
                n == sprite_sheets@.len(),
                n + anims@.len() <= usize::MAX,
                db.spec_names() == name_views(sprite_sheets@) + name_views(anims@.subrange(0, i as int)),
                db.spec_types() == Seq::new(n as nat, |k: int| Type::SpriteSheet) + Seq::new(i as nat, |k: int| Type::Animation),
            decreases anims@.len() - i,
        {
            let ghost before = db.names@;
            db.names.push(anims[i].clone());
            db.by_id.push(Type::Animation);
            assert(name_views(db.names@) =~= name_views(before).push(anims@[i as int]@));
            assert(name_views(anims@.subrange(0, i + 1)) =~= name_views(anims@.subrange(0, i as int)).push(anims@[i as int]@));
            assert(db.spec_names() =~= name_views(sprite_sheets@) + name_views(anims@.subrange(0, i + 1)));
            assert(db.spec_types() =~= Seq::new(n as nat, |k: int| Type::SpriteSheet) + Seq::new((i + 1) as nat, |k: int| Type::Animation));
            i += 1;
        }
        assert(sprite_sheets@.subrange(0, sprite_sheets@.len() as int) =~= sprite_sheets@);
        assert(anims@.subrange(0, anims@.len() as int) =~= anims@);
        db
    }

    /// The type of the asset with id `id`, if there is one.
    pub fn type_by_id(&self, id: AssetID) -> (r: Option<Type>)
        ensures
            id < self.spec_types().len() ==> r == Some(self.spec_types()[id as int]),
            id >= self.spec_types().len() ==> r is None,
    {
        if id < self.by_id.len() {
            Some(self.by_id[id])
        } else {
            None
        }
    }

    /// The id of the asset called `name`, if there is one; of two assets with
    /// one name, the later.
    pub fn id_by_name(&self, name: &str) -> (r: Option<AssetID>)
        ensures
            r is None <==> !self.spec_names().contains(name@),
            r is Some ==> {
                &&& r->0 < self.spec_names().len()
                &&& self.spec_names()[r->0 as int] == name@
                &&& forall|j: int| r->0 < j < self.spec_names().len() ==> self.spec_names()[j] != name@
            },
    {
        let owned = name.to_owned();
        let mut i: usize = self.names.len();
        while i > 0
            invariant
                i <= self.names@.len(),
                owned@ == name@,
                forall|j: int| i <= j < self.names@.len() ==> self.spec_names()[j] != name@,
            decreases i,
        {
            i -= 1;
            if self.names[i] == owned {
                assert(self.spec_names()[i as int] == name@);
                return Some(i);
            }
        }
        None
    }

    /// The type of the asset called `name`, if there is one.
    pub fn type_by_name(&self, name: &str) -> (r: Option<Type>)
        requires
            self.wf(),
        ensures
            r is None <==> !self.spec_names().contains(name@),
            r is Some ==> exists|i: int| {
                &&& 0 <= i < self.spec_names().len()
                &&& self.spec_names()[i] == name@
                &&& (forall|j: int| i < j < self.spec_names().len() ==> self.spec_names()[j] != name@)
                &&& r->0 == #[trigger] self.spec_types()[i]
            },
    {
        match self.id_by_name(name) {
            Some(id) => self.type_by_id(id),
            None => None,
        }
    }

    /// The number of assets.
    pub fn len(&self) -> (r: usize)
        ensures
            r == self.spec_names().len(),
    {
        self.names.len()
    }

    /// The name of the asset with id `id`.
    pub fn name_of(&self, id: AssetID) -> (r: &str)
        requires
            id < self.spec_names().len(),
        ensures
            r@ == self.spec_names()[id as int],
    {
        self.names[id].as_str()
    }
}

} // verus!
