use vstd::prelude::*;

verus! {

/// A graph in the GEXF exchange format.
pub struct Gexf {
    pub xmlns: String,
    pub xmlnsxsi: String,
    pub schemaloc: String,
    pub version: String,
    pub meta: Meta,
    pub graph: GraphGexf,
}

/// Who made a GEXF file, and what it holds.
pub struct Meta {
    pub creator: String,
    pub description: String,
}

/// The graph of a GEXF file: its attribute declarations, nodes and edges.
pub struct GraphGexf {
    pub defaultedgetype: String,
    pub attributes: Vec<AttributesGexf>,
    pub nodes: NodesGexf,
    pub edges: EdgesGexf,
}

/// The attributes declared for one class of elements (nodes or edges).
pub struct AttributesGexf {
    pub class: String,
    pub attributes: Vec<AttributeGexf>,
}

/// One declared attribute.
pub struct AttributeGexf {
    pub id: String,
    pub title: String,
    pub attr_type: String,
}

/// The nodes of a GEXF graph.
pub struct NodesGexf {
    pub nodes: Vec<NodeGexf>,
}

/// One node, with its attribute values.
pub struct NodeGexf {
    pub id: String,
    pub label: String,
    pub attvalues: AttValuesGexf,
}

/// The attribute values of a node or an edge.
pub struct AttValuesGexf {
    pub attvalues: Vec<AttValueGexf>,
}

/// The value of the attribute `attr`.
pub struct AttValueGexf {
    pub attr: String,
    pub value: String,
}

/// The edges of a GEXF graph.
pub struct EdgesGexf {
    pub edges: Vec<EdgeGexf>,
}

/// One edge, with its attribute values.
pub struct EdgeGexf {
    pub source: String,
    pub target: String,
    pub attvalues: AttValuesGexf,
}

impl Default for GraphGexf {
    /// A directed graph without attributes, nodes or edges.
    fn default() -> (r: Self)
        ensures
            r.defaultedgetype@ == "directed"@,
            r.attributes.len() == 0,
            r.nodes.nodes.len() == 0,
            r.edges.edges.len() == 0,
    {
        let r = GraphGexf {
            defaultedgetype: String::from_str("directed"),
            attributes: Vec::new(),
            nodes: NodesGexf { nodes: Vec::new() },
            edges: EdgesGexf { edges: Vec::new() },
        };
        proof {
            reveal_strlit("directed");
        }
        r
    }
}

impl Default for Meta {
    /// The description of a graph made by this library.
    fn default() -> (r: Self)
        ensures
            r.creator@ == "Made with pmrs."@,
            r.description@ == "Object-Centric Directed Graph"@,
    {
        let r = Meta {
            creator: String::from_str("Made with pmrs."),
            description: String::from_str("Object-Centric Directed Graph"),
        };
        proof {
            reveal_strlit("Made with pmrs.");
            reveal_strlit("Object-Centric Directed Graph");
        }
        r
    }
}

impl Gexf {
    /// An empty GEXF 1.3 document.
    pub fn new() -> (r: Self)
        ensures
            r.xmlns@ == "http://gexf.net/1.3"@,
            r.version@ == "1.3"@,
            r.graph.defaultedgetype@ == "directed"@,
            r.graph.attributes.len() == 0,
            r.graph.nodes.nodes.len() == 0,
            r.graph.edges.edges.len() == 0,
    {
        let r = Gexf {
            xmlns: String::from_str("http://gexf.net/1.3"),
            xmlnsxsi: String::from_str("http://www.w3.org/2001/XMLSchema-instance"),
            schemaloc: String::from_str("http://gexf.net/1.3 http://gexf.net/1.3/gexf.xsd"),
            version: String::from_str("1.3"),
            meta: Meta::default(),
            graph: GraphGexf::default(),
        };
        proof {
            reveal_strlit("http://gexf.net/1.3");
            reveal_strlit("1.3");
        }
        r
    }
}

} // verus!
