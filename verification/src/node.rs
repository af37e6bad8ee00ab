//! Nodes of a river network: points with attributes, joined to the node
//! they flow into (their output) and the nodes that flow into them.
use vstd::prelude::*;
use crate::attrs::{AttrMap, Attribute, Val, upsert, lookup};
use crate::text::{owned, push_str};
use crate::registry::{NameMap, nlookup, nupsert};
use crate::timeseries::TimeSeries;

verus! {

/// A node. Its inputs and output are the ids of other nodes of the same
/// network.
#[derive(Debug)]
pub struct NodeInner {
    index: usize,
    name: String,
    level: u64,
    order: u64,
    attributes: AttrMap,
    inputs: Vec<usize>,
    output: Option<usize>,
    timeseries: NameMap<TimeSeries>,
}

/// The mathematical form of a node.
pub struct NodeV {
    pub index: usize,
    pub name: Seq<char>,
    pub level: u64,
    pub order: u64,
    pub attrs: Seq<(Seq<char>, Val)>,
    pub inputs: Seq<usize>,
    pub output: Option<usize>,
    /// the time series, by name
    pub ts: Seq<(Seq<char>, TimeSeries)>,
}

impl View for NodeInner {
    type V = NodeV;

    closed spec fn view(&self) -> NodeV {
        NodeV {
            index: self.index,
            name: self.name@,
            level: self.level,
            order: self.order,
            attrs: self.attributes@,
            inputs: self.inputs@,
            output: self.output,
            ts: self.timeseries@,
        }
    }
}

/// The attributes of a new node: its name and index.
pub open spec fn initial_attrs(index: usize, name: Seq<char>) -> Seq<(Seq<char>, Val)> {
    upsert(upsert(Seq::empty(), "NAME"@, Val::Str(name)), "INDEX"@, Val::Integer(index as i64))
}

impl NodeInner {
    /// A node without connections, whose attributes `NAME` and `INDEX`
    /// hold its name and index.
    pub fn new(index: usize, name: &str) -> (n: Self)
        ensures
            n@ == (NodeV {
                index: index,
                name: name@,
                level: 0,
                order: 0,
                attrs: initial_attrs(index, name@),
                inputs: Seq::empty(),
                output: None,
                ts: Seq::empty(),
            }),
    {
        let mut node = NodeInner {
            index,
            name: owned(name),
            level: 0,
            order: 0,
            attributes: AttrMap::new(),
            inputs: Vec::new(),
            output: None,
            timeseries: NameMap::new(),
        };
        proof {
            reveal_strlit("NAME");
            reveal_strlit("INDEX");
        }
        node.set_attr("NAME", Attribute::String(owned(name)));
        node.set_attr("INDEX", Attribute::Integer(index as i64));
        node
    }

    pub fn name(&self) -> (s: &str)
        ensures
            s@ == self@.name,
    {
        self.name.as_str()
    }

    pub fn index(&self) -> (i: usize)
        ensures
            i == self@.index,
    {
        self.index
    }

    /// Sets the index, and the attribute `INDEX` with it.
    pub fn set_index(&mut self, index: usize)
        ensures
            final(self).ts_view() == old(self).ts_view(),
            final(self)@ == (NodeV {
                index: index,
                attrs: upsert(old(self)@.attrs, "INDEX"@, Val::Integer(index as i64)),
                ..old(self)@
            }),
    {
        self.index = index;
        proof {
            reveal_strlit("INDEX");
        }
        self.set_attr("INDEX", Attribute::Integer(index as i64));
    }

    pub fn level(&self) -> (l: u64)
        ensures
            l == self@.level,
    {
        self.level
    }

    pub fn order(&self) -> (o: u64)
        ensures
            o == self@.order,
    {
        self.order
    }

    pub fn set_level(&mut self, level: u64)
        ensures
            final(self).ts_view() == old(self).ts_view(),
            final(self)@ == (NodeV { level: level, ..old(self)@ }),
    {
        self.level = level;
    }

    pub fn set_order(&mut self, order: u64)
        ensures
            final(self).ts_view() == old(self).ts_view(),
            final(self)@ == (NodeV { order: order, ..old(self)@ }),
    {
        self.order = order;
    }

    /// Sets attribute `name` to `val`, giving back the value it replaces.
    pub fn set_attr(&mut self, name: &str, val: Attribute) -> (r: Option<Attribute>)
        ensures
            final(self).ts_view() == old(self).ts_view(),
            final(self)@ == (NodeV { attrs: upsert(old(self)@.attrs, name@, val@), ..old(self)@ }),
            match r {
                Some(a) => lookup(old(self)@.attrs, name@) == Some(a@),
                None => lookup(old(self)@.attrs, name@) is None,
            },
    {
        self.attributes.insert(owned(name), val)
    }

    /// The value of attribute `name`.
    pub fn attr(&self, name: &str) -> (r: Option<&Attribute>)
        ensures
            match r {
                Some(a) => lookup(self@.attrs, name@) == Some(a@),
                None => lookup(self@.attrs, name@) is None,
            },
    {
        self.attributes.get(name)
    }

    /// The node's attributes, to change.
    pub fn attr_map_mut(&mut self) -> (m: &mut AttrMap)
        ensures
            final(self).ts_view() == old(self).ts_view(),
            m@ == old(self)@.attrs,
            final(self)@ == (NodeV { attrs: final(m)@, ..old(self)@ }),
    {
        &mut self.attributes
    }

    pub fn attrs(&self) -> (m: &AttrMap)
        ensures
            m@ == self@.attrs,
    {
        &self.attributes
    }

    /// The ids of the nodes that flow into this one.
    pub fn inputs(&self) -> (v: &Vec<usize>)
        ensures
            v@ == self@.inputs,
    {
        &self.inputs
    }

    pub fn add_input(&mut self, input: usize)
        ensures
            final(self).ts_view() == old(self).ts_view(),
            final(self)@ == (NodeV { inputs: old(self)@.inputs.push(input), ..old(self)@ }),
    {
        self.inputs.push(input);
    }

    pub fn unset_inputs(&mut self)
        ensures
            final(self).ts_view() == old(self).ts_view(),
            final(self)@ == (NodeV { inputs: Seq::empty(), ..old(self)@ }),
    {
        self.inputs = Vec::new();
    }

    /// Replaces the list of inputs.
    pub fn set_inputs(&mut self, inputs: Vec<usize>)
        ensures
            final(self).ts_view() == old(self).ts_view(),
            final(self)@ == (NodeV { inputs: inputs@, ..old(self)@ }),
    {
        self.inputs = inputs;
    }

    /// The id of the node this one flows into.
    pub fn output(&self) -> (o: Option<usize>)
        ensures
            o == self@.output,
    {
        self.output
    }

    pub fn set_output(&mut self, output: usize)
        ensures
            final(self).ts_view() == old(self).ts_view(),
            final(self)@ == (NodeV { output: Some(output), ..old(self)@ }),
    {
        self.output = Some(output);
    }

    pub fn unset_output(&mut self)
        ensures
            final(self).ts_view() == old(self).ts_view(),
            final(self)@ == (NodeV { output: None, ..old(self)@ }),
    {
        self.output = None;
    }
}

impl NodeInner {
    /// The node's time series, by name.
    pub open spec fn ts_view(&self) -> Seq<(Seq<char>, TimeSeries)> {
        self@.ts
    }

    /// Sets time series `name`.
    pub fn set_ts(&mut self, name: &str, val: TimeSeries)
        ensures
            final(self)@ == (NodeV { ts: nupsert(old(self)@.ts, name@, val), ..old(self)@ }),
            final(self).ts_view() == nupsert(old(self).ts_view(), name@, val),
    {
        self.timeseries.insert(owned(name), val);
    }

    /// The time series `name`.
    pub fn ts(&self, name: &str) -> (r: Option<&TimeSeries>)
        ensures
            match r {
                Some(t) => nlookup(self.ts_view(), name@) == Some(*t),
                None => nlookup(self.ts_view(), name@) is None,
            },
    {
        self.timeseries.get(name)
    }

    /// The time series `name`; the error says the node has none of that
    /// name.
    pub fn try_ts(&self, name: &str) -> (r: Result<&TimeSeries, String>)
        ensures
            match r {
                Ok(t) => nlookup(self.ts_view(), name@) == Some(*t),
                Err(m) => nlookup(self.ts_view(), name@) is None
                    && m@ == "Node `"@ + self@.name + "` does not have timeseries `"@ + name@ + "`"@,
            },
    {
        match self.timeseries.get(name) {
            Some(t) => Ok(t),
            None => {
                let mut m = owned("Node `");
                push_str(&mut m, self.name.as_str());
                push_str(&mut m, "` does not have timeseries `");
                push_str(&mut m, name);
                push_str(&mut m, "`");
                Err(m)
            },
        }
    }

    /// All the node's time series.
    pub fn ts_all(&self) -> (m: &NameMap<TimeSeries>)
        ensures
            m@ == self.ts_view(),
    {
        &self.timeseries
    }

    /// Takes attribute `name` out, giving back its value.
    pub fn del_attr(&mut self, name: &str) -> (r: Option<Attribute>)
        ensures
            final(self).ts_view() == old(self).ts_view(),
            final(self)@ == (NodeV { attrs: crate::attrs::without(old(self)@.attrs, name@), ..old(self)@ }),
            match r {
                Some(a) => lookup(old(self)@.attrs, name@) == Some(a@),
                None => lookup(old(self)@.attrs, name@) is None,
            },
    {
        self.attributes.remove(name)
    }
}

impl NodeInner {
    /// The attribute under a dotted name (see `AttrMap::attr_dot`).
    pub fn attr_dot(&self, name: &str) -> (r: Result<Option<&Attribute>, String>)
        ensures
            match (r, crate::functions::dot_lookup(self@.attrs, name@, 0)) {
                (Ok(Some(a)), Ok(Some(v))) => a@ == v,
                (Ok(None), Ok(None)) => true,
                (Err(m), Err(w)) => m@ == w,
                _ => false,
            },
    {
        self.attributes.attr_dot(name)
    }

    /// Sets the attribute under a dotted name (see `AttrMap::set_attr_dot`).
    pub fn set_attr_dot(&mut self, name: &str, val: Attribute) -> (r: Result<Option<Attribute>, String>)
        ensures
            final(self).ts_view() == old(self).ts_view(),
            final(self)@ == (NodeV { attrs: final(self)@.attrs, ..old(self)@ }),
            crate::functions::set_agrees(r, old(self)@.attrs, final(self)@.attrs,
                crate::functions::dot_set(old(self)@.attrs, name@, 0, val@)),
    {
        self.attributes.set_attr_dot(name, val)
    }
}

} // verus!
