//! Scene documents: what of a document is saved, and which saved scenes are taken in.
use crate::arena::{arena_of, models, reloading_keeps_names, shown};
use crate::document::{fresh, DocModel, Document};
use crate::kinds::{kind_label, ObjectKind};
use crate::number::{Real, Vec3, ONE_BITS, ZERO_BITS};
use crate::object::{ObjId, Object, ObjectModel, Trs};
use crate::text::{append_decimal, decimal};
use vstd::prelude::*;
use vstd::string::StringExecFns;

verus! {

/// The schema that saved scenes carry.
pub const SCENE_SCHEMA: &'static str = "sweet.visual.scene";

/// The newest version of saved scenes that is taken in.
pub const SCENE_VERSION: u32 = 1;

/// A saved scene.
#[derive(Debug)]
pub struct SceneDoc {
    pub schema: String,
    pub version: u32,
    pub next_serial: u32,
    pub selection: Option<ObjId>,
    pub objects: Vec<Object>,
}

/// Why a saved scene is not taken in.
#[derive(Debug)]
pub enum SceneError {
    UnknownSchema(String),
    FutureVersion { found: u32, supported: u32 },
}

/// What a saved scene holds.
#[verifier::ext_equal]
pub ghost struct SceneModel {
    pub schema: Seq<char>,
    pub version: u32,
    pub next_serial: u32,
    pub selection: Option<ObjId>,
    pub objects: Seq<ObjectModel>,
}

impl View for SceneDoc {
    type V = SceneModel;

    open spec fn view(&self) -> SceneModel {
        SceneModel {
            schema: self.schema@,
            version: self.version,
            next_serial: self.next_serial,
            selection: self.selection,
            objects: models(self.objects@),
        }
    }
}

impl DocModel {
    /// The document as a saved scene: all objects in the order of their slots.
    pub open spec fn saved(self) -> SceneModel {
        SceneModel {
            schema: SCENE_SCHEMA@,
            version: SCENE_VERSION,
            next_serial: self.next_serial,
            selection: self.selection,
            objects: self.arena.live(),
        }
    }
}

impl SceneModel {
    /// The document of a saved scene. History and the selected face are not saved. The names of
    /// objects that were made and removed before the scene was saved are not given out again.
    pub open spec fn loaded(self) -> DocModel {
        let arena = arena_of(self.objects, self.next_serial);
        DocModel {
            arena,
            selection: match self.selection {
                Some(id) => if arena.lookup(id) is Some {
                    self.selection
                } else {
                    None
                },
                None => None,
            },
            next_serial: self.next_serial,
            ..DocModel::empty()
        }
    }
}

/// What an error says.
pub open spec fn scene_error_text(error: SceneError) -> Seq<char> {
    match error {
        SceneError::UnknownSchema(s) => "unknown scene schema: "@ + s@,
        SceneError::FutureVersion { found, supported } => "scene version "@ + decimal(
            found as nat,
        ) + " is newer than supported "@ + decimal(supported as nat),
    }
}

impl SceneError {
    /// What the error says.
    pub fn message(&self) -> (r: String)
        ensures
            r@ == scene_error_text(*self),
    {
        match self {
            SceneError::UnknownSchema(s) => {
                let mut text: String = "unknown scene schema: ".to_owned();
                text.append(s.as_str());
                text
            },
            SceneError::FutureVersion { found, supported } => {
                let mut text: String = "scene version ".to_owned();
                append_decimal(&mut text, *found as u64);
                text.append(" is newer than supported ");
                append_decimal(&mut text, *supported as u64);
                text
            },
        }
    }
}

/// The bit patterns of the places of the starter scene: 0.6, 2.6, -2.6, -0.5 and 3.
pub const STARTER_UP: u32 = 0x3f19_999a;

pub const STARTER_RIGHT: u32 = 0x4026_6666;

pub const STARTER_LEFT: u32 = 0xc026_6666;

pub const STARTER_DOWN: u32 = 0xbf00_0000;

pub const STARTER_SIZE: u32 = 0x4040_0000;

/// A point from bit patterns.
pub open spec fn point(x: u32, y: u32, z: u32) -> Vec3 {
    Vec3 { x: Real { bits: x }, y: Real { bits: y }, z: Real { bits: z } }
}

fn point_of(x: u32, y: u32, z: u32) -> (r: Vec3)
    ensures
        r == point(x, y, z),
{
    Vec3 { x: Real { bits: x }, y: Real { bits: y }, z: Real { bits: z } }
}

/// The document after an object of a kind was made at a place.
pub open spec fn with_kind(doc: DocModel, kind: ObjectKind, at: Vec3) -> DocModel {
    doc.with_new(fresh(kind, kind_label(kind)@, doc.serial(), at))
}

/// The starter scene: a paint canvas three units wide and high, and a cube and a sphere beside
/// it.
pub open spec fn starter_scene() -> DocModel {
    let at = point(ZERO_BITS, STARTER_UP, ZERO_BITS);
    let id = ObjId { slot: 0, generation: 0 };
    let one = with_kind(DocModel::empty(), ObjectKind::PaintCanvas, at);
    let board = one.arena.lookup(id)->0;
    let scaled = ObjectModel {
        transform: Trs {
            scale: point(STARTER_SIZE, STARTER_SIZE, ONE_BITS),
            ..board.transform
        },
        ..board
    };
    let two = DocModel { arena: one.arena.replaced(id, scaled), ..one };
    let three = with_kind(
        two,
        ObjectKind::Cube,
        point(STARTER_LEFT, STARTER_DOWN, STARTER_UP),
    );
    with_kind(three, ObjectKind::Sphere, point(STARTER_RIGHT, STARTER_DOWN, STARTER_UP))
}

impl Document {
    /// The starter scene.
    pub fn with_starter_scene() -> (r: Document)
        ensures
            r@ == starter_scene(),
            r.valid(),
    {
        let mut doc = Document::new();
        let board: ObjId = doc.add(
            ObjectKind::PaintCanvas,
            point_of(ZERO_BITS, STARTER_UP, ZERO_BITS),
        );
        let ghost one = doc@;
        assert(one.arena.slots.len() == 1);
        match doc.get_mut(board) {
            Some(obj) => {
                let ghost before = obj@;
                obj.transform.scale = point_of(STARTER_SIZE, STARTER_SIZE, ONE_BITS);
                assert(obj@ == (ObjectModel {
                    transform: Trs {
                        scale: point(STARTER_SIZE, STARTER_SIZE, ONE_BITS),
                        ..before.transform
                    },
                    ..before
                }));
            },
            None => {},
        }
        assert(doc@.arena.slots.len() == 1);
        doc.add(ObjectKind::Cube, point_of(STARTER_LEFT, STARTER_DOWN, STARTER_UP));
        assert(doc@.arena.slots.len() == 2);
        doc.add(ObjectKind::Sphere, point_of(STARTER_RIGHT, STARTER_DOWN, STARTER_UP));
        doc
    }

    /// The document as a saved scene. Names are kept, so that a saved selection finds its
    /// object again.
    pub fn to_scene_doc(&self) -> (r: SceneDoc)
        ensures
            r@ == self@.saved(),
    {
        let list = self.objects();
        let ghost live = self@.arena.live();
        let mut objects: Vec<Object> = Vec::new();
        let mut i: usize = 0;
        assert(models(objects@) =~= live.take(0));
        while i < list.len()
            invariant
                i <= list.len(),
                shown(list@) == live,
                models(objects@) == live.take(i as int),
            decreases list.len() - i,
        {
            let o = list[i].copy();
            assert(o@ == shown(list@)[i as int]);
            let ghost so_far = objects@;
            objects.push(o);
            proof {
                assert(models(objects@) =~= models(so_far).push(o@));
                assert(live.take(i + 1) =~= live.take(i as int).push(o@));
            }
            i = i + 1;
        }
        assert(shown(list@).len() == list.len());
        assert(live.take(i as int) =~= live);
        SceneDoc {
            schema: SCENE_SCHEMA.to_owned(),
            version: SCENE_VERSION,
            next_serial: self.serial_count(),
            selection: self.selection(),
            objects,
        }
    }

    /// The document of a saved scene. A scene of another schema, or of a newer version, is not
    /// taken in. Objects keep their names, and no new object gets a name that was given out before
    /// the scene was saved.
    pub fn from_scene_doc(scene: SceneDoc) -> (r: Result<Document, SceneError>)
        ensures
            match r {
                Ok(doc) => scene@.schema == SCENE_SCHEMA@ && scene@.version <= SCENE_VERSION && doc@
                    == scene@.loaded() && doc.valid(),
                Err(SceneError::UnknownSchema(s)) => scene@.schema != SCENE_SCHEMA@ && s@
                    == scene@.schema,
                Err(SceneError::FutureVersion { found, supported }) => scene@.schema
                    == SCENE_SCHEMA@ && scene@.version > SCENE_VERSION && found == scene@.version
                    && supported == SCENE_VERSION,
            },
    {
        if scene.schema != SCENE_SCHEMA.to_owned() {
            return Err(SceneError::UnknownSchema(scene.schema));
        }
        if scene.version > SCENE_VERSION {
            return Err(
                SceneError::FutureVersion { found: scene.version, supported: SCENE_VERSION },
            );
        }
        Ok(Document::from_parts(&scene.objects, scene.selection, scene.next_serial))
    }
}

/// Saving and loading gives the scene back: a saved document is taken in, every name finds what
/// it found before, the selection is kept if it finds an object, and saving again gives the
/// same scene.
pub proof fn saved_scenes_come_back(doc: DocModel)
    requires
        doc.valid(),
        doc.arena.well_named(),
        doc.arena.slots.len() <= u32::MAX + 1,
        doc.selection is Some ==> doc.selected() is Some,
    ensures
        doc.saved().schema == SCENE_SCHEMA@,
        doc.saved().version <= SCENE_VERSION,
        forall|id: ObjId|
            #[trigger] doc.saved().loaded().arena.lookup(id) == doc.arena.lookup(id),
        doc.saved().loaded().selection == doc.selection,
        doc.saved().loaded().next_serial == doc.next_serial,
        doc.saved().loaded().saved() == doc.saved(),
{
    reloading_keeps_names(doc.arena, doc.next_serial);
}

} // verus!
