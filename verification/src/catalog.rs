//! What the catalog tells about one asset: its instances with their
//! volumes' labels, its PARA assignment as `<kind>/<name>`, and the
//! metadata fields set on it.
use vstd::prelude::*;
use crate::para::{kind_name, ParaKind, ParaNode};
use crate::text::{cat, str_eq};

verus! {

/// One volume holding an instance of an asset: the volume's id, label and
/// online status, and the instance's own path, size and modification time.
#[derive(Debug)]
pub struct AssetInstance {
    pub volume: String,
    pub volume_label: String,
    pub online: bool,
    pub path: String,
    pub size: u64,
    pub mtime_ms: u64,
}

/// The fields of an asset a lookup returns: the one requested, present
/// only if set, or every field set on it.
#[derive(Debug)]
pub struct MetaOutcome {
    pub fields: Vec<(String, String)>,
}

/// The first sighting of volume `v` among `vols`.
pub open spec fn first_sighting(vols: Seq<(String, Option<String>)>, v: Seq<char>, n: nat) -> Option<int>
    decreases n,
{
    if n == 0 {
        None
    } else {
        match first_sighting(vols, v, (n - 1) as nat) {
            Some(i) => Some(i),
            None => if vols[n - 1].0@ == v {
                Some(n - 1)
            } else {
                None
            },
        }
    }
}

/// The label recorded for volume `v`, or its id when the catalog saw no
/// label for it.
pub open spec fn label_of(vols: Seq<(String, Option<String>)>, v: Seq<char>) -> Seq<char> {
    match first_sighting(vols, v, vols.len()) {
        Some(i) => match vols[i].1 {
            Some(l) => l@,
            None => v,
        },
        None => v,
    }
}

proof fn lemma_first_sighting_sticks(vols: Seq<(String, Option<String>)>, v: Seq<char>, k: nat, n: nat)
    requires
        k <= n,
        first_sighting(vols, v, k) is Some,
    ensures
        first_sighting(vols, v, n) == first_sighting(vols, v, k),
    decreases n - k,
{
    if n > k {
        lemma_first_sighting_sticks(vols, v, k, (n - 1) as nat);
    }
}

/// The label recorded for `volume` among the sighted volumes (id and
/// label, when one was recorded), or the id itself.
pub fn volume_label(vols: &Vec<(String, Option<String>)>, volume: &str) -> (l: String)
    ensures
        l@ == label_of(vols@, volume@),
{
    let mut i: usize = 0;
    while i < vols.len()
        invariant
            i <= vols.len(),
            first_sighting(vols@, volume@, i as nat) is None,
        decreases vols.len() - i,
    {
        if str_eq(vols[i].0.as_str(), volume) {
            proof {
                lemma_first_sighting_sticks(vols@, volume@, (i + 1) as nat, vols@.len());
            }
            return match &vols[i].1 {
                Some(l) => l.clone(),
                None => volume.to_owned(),
            };
        }
        i = i + 1;
    }
    volume.to_owned()
}

/// An asset's PARA assignment as shown: `<kind>/<name>` of its node, or
/// the bare node id when the node, or its kind or name, is unknown.
pub open spec fn para_text(assigned: Option<Seq<char>>, nodes: Seq<ParaNode>) -> Option<Seq<char>> {
    match assigned {
        None => None,
        Some(id) => if exists|i: int| 0 <= i < nodes.len() && #[trigger] nodes[i].id@ == id {
            let node = nodes[choose|i: int| 0 <= i < nodes.len() && #[trigger] nodes[i].id@ == id];
            match (node.kind, node.name) {
                (Some(k), Some(n)) => Some(kind_name(k) + "/"@ + n@),
                _ => Some(id),
            }
        } else {
            Some(id)
        },
    }
}

fn kind_text(k: ParaKind) -> (s: &'static str)
    ensures
        s@ == kind_name(k),
{
    match k {
        ParaKind::Project => "project",
        ParaKind::Area => "area",
        ParaKind::Resource => "resource",
        ParaKind::Archive => "archive",
    }
}

/// The label of node `id` among `nodes`, whose ids are distinct.
fn node_label(id: &str, nodes: &Vec<ParaNode>) -> (l: String)
    requires
        forall|i: int, j: int| 0 <= i < j < nodes.len() ==> (#[trigger] nodes@[i]).id@ != (#[trigger] nodes@[j]).id@,
    ensures
        para_text(Some(id@), nodes@) matches Some(t) && l@ == t,
{
    let mut i: usize = 0;
    while i < nodes.len()
        invariant
            i <= nodes.len(),
            forall|k: int| 0 <= k < i ==> (#[trigger] nodes@[k]).id@ != id@,
            forall|a: int, b: int| 0 <= a < b < nodes.len() ==> (#[trigger] nodes@[a]).id@ != (#[trigger] nodes@[b]).id@,
        decreases nodes.len() - i,
    {
        if str_eq(nodes[i].id.as_str(), id) {
            proof {
                assert(nodes@[i as int].id@ == id@);
                assert(exists|k: int| 0 <= k < nodes.len() && #[trigger] nodes@[k].id@ == id@);
                let j = choose|j: int| 0 <= j < nodes.len() && #[trigger] nodes@[j].id@ == id@;
                if j != i {
                    if j > i {
                        assert(nodes@[i as int].id@ != nodes@[j].id@);
                    }
                }
                assert(j == i);
            }
            let node = &nodes[i];
            return match &node.kind {
                Some(k) => match &node.name {
                    Some(n) => {
                        let head = cat(kind_text(*k), "/");
                        cat(head.as_str(), n.as_str())
                    },
                    None => id.to_owned(),
                },
                None => id.to_owned(),
            };
        }
        i = i + 1;
    }
    id.to_owned()
}

/// An asset's PARA assignment (`assigned` is its node id, if any) as
/// shown, looking the node up among `nodes`, whose ids are distinct.
pub fn para_label(assigned: Option<&str>, nodes: &Vec<ParaNode>) -> (r: Option<String>)
    requires
        forall|i: int, j: int| 0 <= i < j < nodes.len() ==> (#[trigger] nodes@[i]).id@ != (#[trigger] nodes@[j]).id@,
    ensures
        match (r, para_text(
            match assigned {
                Some(a) => Some(a@),
                None => None,
            },
            nodes@,
        )) {
            (Some(x), Some(y)) => x@ == y,
            (None, None) => true,
            _ => false,
        },
{
    match assigned {
        None => None,
        Some(id) => Some(node_label(id, nodes)),
    }
}

/// The fields a lookup returns from an asset's set fields (each key at
/// most once): the named one, if set, or all of them.
pub open spec fn looked_up(fields: Seq<(String, String)>, field: Option<Seq<char>>) -> Seq<(Seq<char>, Seq<char>)> {
    match field {
        None => fields.map_values(|f: (String, String)| (f.0@, f.1@)),
        Some(name) => if exists|i: int| 0 <= i < fields.len() && #[trigger] fields[i].0@ == name {
            let i = choose|i: int| 0 <= i < fields.len() && #[trigger] fields[i].0@ == name;
            seq![(name, fields[i].1@)]
        } else {
            Seq::empty()
        },
    }
}

/// Looks up one field, or every field, of an asset whose set fields are
/// `fields` (distinct keys).
pub fn meta_lookup(fields: &Vec<(String, String)>, field: Option<&str>) -> (out: MetaOutcome)
    requires
        forall|i: int, j: int| 0 <= i < j < fields.len() ==> (#[trigger] fields@[i]).0@ != (#[trigger] fields@[j]).0@,
    ensures
        out.fields@.map_values(|f: (String, String)| (f.0@, f.1@)) == looked_up(
            fields@,
            match field {
                Some(f) => Some(f@),
                None => None,
            },
        ),
{
    match field {
        None => {
            let mut all: Vec<(String, String)> = Vec::new();
            let mut i: usize = 0;
            while i < fields.len()
                invariant
                    i <= fields.len(),
                    all@.map_values(|f: (String, String)| (f.0@, f.1@)) == fields@.subrange(0, i as int).map_values(
                        |f: (String, String)| (f.0@, f.1@),
                    ),
                decreases fields.len() - i,
            {
                let ghost all0 = all@;
                let pair = (fields[i].0.clone(), fields[i].1.clone());
                all.push(pair);
                proof {
                    assert(all@.map_values(|f: (String, String)| (f.0@, f.1@)) =~= all0.map_values(
                        |f: (String, String)| (f.0@, f.1@),
                    ).push((fields@[i as int].0@, fields@[i as int].1@)));
                    assert(fields@.subrange(0, i + 1).map_values(|f: (String, String)| (f.0@, f.1@)) =~= fields@.subrange(
                        0,
                        i as int,
                    ).map_values(|f: (String, String)| (f.0@, f.1@)).push((fields@[i as int].0@, fields@[i as int].1@)));
                }
                i = i + 1;
            }
            assert(fields@.subrange(0, fields.len() as int) =~= fields@);
            MetaOutcome { fields: all }
        },
        Some(name) => field_of(fields, name),
    }
}

fn field_of(fields: &Vec<(String, String)>, name: &str) -> (out: MetaOutcome)
    requires
        forall|i: int, j: int| 0 <= i < j < fields.len() ==> (#[trigger] fields@[i]).0@ != (#[trigger] fields@[j]).0@,
    ensures
        out.fields@.map_values(|f: (String, String)| (f.0@, f.1@)) == looked_up(fields@, Some(name@)),
{
    let mut i: usize = 0;
    while i < fields.len()
        invariant
            i <= fields.len(),
            forall|k: int| 0 <= k < i ==> (#[trigger] fields@[k]).0@ != name@,
            forall|a: int, b: int| 0 <= a < b < fields.len() ==> (#[trigger] fields@[a]).0@ != (#[trigger] fields@[b]).0@,
        decreases fields.len() - i,
    {
        if str_eq(fields[i].0.as_str(), name) {
            let mut out: Vec<(String, String)> = Vec::new();
            out.push((name.to_owned(), fields[i].1.clone()));
            proof {
                assert(exists|k: int| 0 <= k < fields.len() && #[trigger] fields@[k].0@ == name@);
                let j = choose|j: int| 0 <= j < fields.len() && #[trigger] fields@[j].0@ == name@;
                if j > i {
                    assert(fields@[i as int].0@ != fields@[j].0@);
                }
                assert(j == i);
                assert(out@.map_values(|f: (String, String)| (f.0@, f.1@)) =~= seq![(name@, fields@[i as int].1@)]);
            }
            return MetaOutcome { fields: out };
        }
        i = i + 1;
    }
    let out: Vec<(String, String)> = Vec::new();
    assert(out@.map_values(|f: (String, String)| (f.0@, f.1@)) =~= Seq::<(Seq<char>, Seq<char>)>::empty());
    MetaOutcome { fields: out }
}

} // verus!
