//! A client's database of assets, retrieved by name or id. Sprite sheets are
//! listed with a descriptor first and loaded on demand.
use vstd::prelude::*;

use crate::asset::AssetID;
use crate::db::name_views;

verus! {

/// One asset slot: `D` describes a sprite sheet not loaded yet, `S` is a
/// loaded sprite sheet, `A` an animation.
pub enum Asset<D, S, A> {
    /// A sprite sheet whose loading has begun.
    PlaceHolder,
    /// A sprite sheet not loaded yet, with what is needed to load it.
    SpriteSheetAbsent(D),
    /// A loaded sprite sheet.
    SpriteSheet(S),
    /// An animation.
    Animation(A),
}

/// The names of a manifest's entries.
pub open spec fn entry_names<X>(entries: Seq<(String, X)>) -> Seq<Seq<char>> {
    entries.map_values(|p: (String, X)| p.0@)
}

/// A database of assets, numbered in the order of the manifest.
pub struct AssetDb<D, S, A> {
    names: Vec<String>,
    by_id: Vec<Asset<D, S, A>>,
}

impl<D, S, A> AssetDb<D, S, A> {
    /// The asset names, by id.
    pub closed spec fn spec_names(&self) -> Seq<Seq<char>> {
        name_views(self.names@)
    }

    /// The asset slots, by id.
    pub closed spec fn spec_assets(&self) -> Seq<Asset<D, S, A>> {
        self.by_id@
    }

    pub open spec fn wf(&self) -> bool {
        self.spec_names().len() == self.spec_assets().len()
    }

    /// Build the database from a manifest: the sprite sheets (not loaded yet)
    /// first, then the animations, numbered in that order.
    pub fn from_manifest(sprite_sheets: Vec<(String, D)>, anims: Vec<(String, A)>) -> (r: AssetDb<D, S, A>)
        ensures
            r.wf(),
            r.spec_names() == entry_names(sprite_sheets@) + entry_names(anims@),
            r.spec_assets() == sprite_sheets@.map_values(|p: (String, D)| Asset::<D, S, A>::SpriteSheetAbsent(p.1))
                + anims@.map_values(|p: (String, A)| Asset::<D, S, A>::Animation(p.1)),
    {
        let ghost sheets0 = sprite_sheets@;
        let ghost anims0 = anims@;
        let mut db = AssetDb { names: Vec::new(), by_id: Vec::new() };
        let mut rest = sprite_sheets;
        let ghost mut i: int = 0;
        while rest.len() > 0
            invariant
                0 <= i <= sheets0.len(),
                rest@ == sheets0.subrange(i, sheets0.len() as int),
                db.spec_names() == entry_names(sheets0.subrange(0, i)),
                db.spec_assets() == sheets0.subrange(0, i).map_values(|p: (String, D)| Asset::<D, S, A>::SpriteSheetAbsent(p.1)),
            decreases rest@.len(),
        {
            let ghost before = db.names@;
            let ghost first = rest@[0];
            let (name, desc) = rest.remove(0);
            db.names.push(name);
            db.by_id.push(Asset::SpriteSheetAbsent(desc));
            proof {
                assert(first == sheets0[i]);
                assert(sheets0.subrange(0, i + 1) =~= sheets0.subrange(0, i).push(first));
                assert(name_views(db.names@) =~= name_views(before).push(first.0@));
                assert(db.spec_names() =~= entry_names(sheets0.subrange(0, i + 1)));
                assert(db.spec_assets() =~= sheets0.subrange(0, i + 1).map_values(|p: (String, D)| Asset::<D, S, A>::SpriteSheetAbsent(p.1)));
                i = i + 1;
                assert(rest@ =~= sheets0.subrange(i, sheets0.len() as int));
            }
        }
        assert(sheets0.subrange(0, i) =~= sheets0);
        let mut rest = anims;
        let ghost mut j: int = 0;
        while rest.len() > 0
            invariant
                0 <= j <= anims0.len(),
                rest@ == anims0.subrange(j, anims0.len() as int),
                db.spec_names() == entry_names(sheets0) + entry_names(anims0.subrange(0, j)),
                db.spec_assets() == sheets0.map_values(|p: (String, D)| Asset::<D, S, A>::SpriteSheetAbsent(p.1))
                    + anims0.subrange(0, j).map_values(|p: (String, A)| Asset::<D, S, A>::Animation(p.1)),
            decreases rest@.len(),
        {
            let ghost before = db.names@;
            let ghost first = rest@[0];
            let (name, anim) = rest.remove(0);
            db.names.push(name);
            db.by_id.push(Asset::Animation(anim));
            proof {
                assert(first == anims0[j]);
                assert(anims0.subrange(0, j + 1) =~= anims0.subrange(0, j).push(first));
                assert(name_views(db.names@) =~= name_views(before).push(first.0@));
                assert(db.spec_names() =~= entry_names(sheets0) + entry_names(anims0.subrange(0, j + 1)));
                assert(db.spec_assets() =~= sheets0.map_values(|p: (String, D)| Asset::<D, S, A>::SpriteSheetAbsent(p.1))
                    + anims0.subrange(0, j + 1).map_values(|p: (String, A)| Asset::<D, S, A>::Animation(p.1)));
                j = j + 1;
                assert(rest@ =~= anims0.subrange(j, anims0.len() as int));
            }
        }
        assert(anims0.subrange(0, j) =~= anims0);
        db
    }

    /// Begin loading the asset with id `id`: when it is a sprite sheet not
    /// loaded yet, its slot becomes a placeholder and its descriptor is
    /// returned, to load the sheet from; otherwise nothing changes.
    pub fn load(&mut self, id: AssetID) -> (r: Option<D>)
        ensures
            final(self).spec_names() == old(self).spec_names(),
            match (if id < old(self).spec_assets().len() { Some(old(self).spec_assets()[id as int]) } else { None }) {
                Some(Asset::SpriteSheetAbsent(d)) => r == Some(d) && final(self).spec_assets()
                    == old(self).spec_assets().update(id as int, Asset::PlaceHolder),
                _ => r is None && final(self).spec_assets() == old(self).spec_assets(),
            },
    {
        if id >= self.by_id.len() {
            return None;
        }
        let is_absent = match &self.by_id[id] {
            Asset::SpriteSheetAbsent(_) => true,
            _ => false,
        };
        if !is_absent {
            return None;
        }
        let mut slot = Asset::PlaceHolder;
        core::mem::swap(&mut self.by_id[id], &mut slot);
        match slot {
            Asset::SpriteSheetAbsent(d) => Some(d),
            _ => None,
        }
    }

    /// Finish loading the sprite sheet with id `id`: a placeholder becomes
    /// `sheet`; any other slot stays as it is.
    pub fn loaded(&mut self, id: AssetID, sheet: S)
        ensures
            final(self).spec_names() == old(self).spec_names(),
            id < old(self).spec_assets().len() && old(self).spec_assets()[id as int] is PlaceHolder
                ==> final(self).spec_assets() == old(self).spec_assets().update(id as int, Asset::SpriteSheet(sheet)),
            !(id < old(self).spec_assets().len() && old(self).spec_assets()[id as int] is PlaceHolder)
                ==> final(self).spec_assets() == old(self).spec_assets(),
    {
        if id < self.by_id.len() {
            let waiting = match &self.by_id[id] {
                Asset::PlaceHolder => true,
                _ => false,
            };
            if waiting {
                self.by_id.set(id, Asset::SpriteSheet(sheet));
            }
        }
    }

    /// A read-only view of the database.
    pub fn get_handle(&self) -> (r: Handle<'_, D, S, A>)
        ensures
            r.spec_db() == *self,
    {
        Handle { inner: self }
    }
}

/// A read-only view of an `AssetDb`.
pub struct Handle<'x, D, S, A> {
    inner: &'x AssetDb<D, S, A>,
}

impl<'x, D, S, A> Handle<'x, D, S, A> {
    pub closed spec fn spec_db(&self) -> AssetDb<D, S, A> {
        *self.inner
    }

    /// The id of the asset called `name`, if there is one; of two assets with
    /// one name, the later.
    pub fn get_id(&self, name: &str) -> (r: Option<AssetID>)
        ensures
            r is None <==> !self.spec_db().spec_names().contains(name@),
            r is Some ==> {
                &&& r->0 < self.spec_db().spec_names().len()
                &&& self.spec_db().spec_names()[r->0 as int] == name@
                &&& forall|j: int| r->0 < j < self.spec_db().spec_names().len() ==> self.spec_db().spec_names()[j] != name@
            },
    {
        let owned = name.to_owned();
        let names = &self.inner.names;
        let mut i: usize = names.len();
        while i > 0
            invariant
                i <= names@.len(),
                names@ == self.inner.names@,
                owned@ == name@,
                forall|j: int| i <= j < names@.len() ==> self.spec_db().spec_names()[j] != name@,
            decreases i,
        {
            i -= 1;
            if names[i] == owned {
                assert(self.spec_db().spec_names()[i as int] == name@);
                return Some(i);
            }
        }
        None
    }

    /// The animation with id `id`, if that asset is an animation.
    pub fn get_anim(&self, id: AssetID) -> (r: Option<&'x A>)
        ensures
            match (if id < self.spec_db().spec_assets().len() { Some(self.spec_db().spec_assets()[id as int]) } else { None }) {
                Some(Asset::Animation(a)) => r == Some(&a),
                _ => r is None,
            },
    {
        let inner: &'x AssetDb<D, S, A> = self.inner;
        if id < inner.by_id.len() {
            match &inner.by_id[id] {
                Asset::Animation(a) => Some(a),
                _ => None,
            }
        } else {
            None
        }
    }

    /// The sprite sheet with id `id`, if that asset is a loaded sprite sheet.
    pub fn get_sprite_sheet(&self, id: AssetID) -> (r: Option<&'x S>)
        ensures
            match (if id < self.spec_db().spec_assets().len() { Some(self.spec_db().spec_assets()[id as int]) } else { None }) {
                Some(Asset::SpriteSheet(s)) => r == Some(&s),
                _ => r is None,
            },
    {
        let inner: &'x AssetDb<D, S, A> = self.inner;
        if id < inner.by_id.len() {
            match &inner.by_id[id] {
                Asset::SpriteSheet(s) => Some(s),
                _ => None,
            }
        } else {
            None
        }
    }
}

} // verus!
