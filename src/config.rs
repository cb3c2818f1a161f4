//! Configuration of tile layers, as read from the configuration document.
use vstd::prelude::*;

verus! {

/// Configuration for tile layers.
#[derive(Debug, Clone)]
pub struct WyrmCfg {
    /// Address to bind server
    pub bind_address: String,
    /// Tile extent; width and height
    pub tile_extent: u32,
    /// Extent outside tile edges
    pub edge_extent: u32,
    /// Configuration for all layer groups
    pub layer_group: Vec<LayerGroupCfg>,
}

/// Layer group configuration
#[derive(Debug, Clone)]
pub struct LayerGroupCfg {
    /// Layer group name
    pub name: String,
    /// Layers in group
    pub layer: Vec<LayerCfg>,
}

/// Layer configuration
#[derive(Debug, Clone)]
pub struct LayerCfg {
    /// Layer name
    pub name: String,
    /// Data source (`osm`, `json`)
    pub source: String,
    /// Type for geometry (`point`, `linestring` or `polygon`)
    pub geom_type: String,
    /// Zoom range
    pub zoom: String,
    /// Tag patterns
    pub tags: Vec<String>,
}

/// Path of the index file of a layer, relative to the working directory.
pub open spec fn loam_path_spec(name: Seq<char>) -> Seq<char> {
    seq!['l', 'o', 'a', 'm', '/'] + name + seq!['.', 'l', 'o', 'a', 'm']
}

impl WyrmCfg {
    /// Get the bind address
    pub fn bind_address(&self) -> (r: &String)
        ensures
            r@ == self.bind_address@,
    {
        &self.bind_address
    }

    /// Get the layer group configurations
    pub fn layer_groups(&self) -> (r: &Vec<LayerGroupCfg>)
        ensures
            r@ == self.layer_group@,
    {
        &self.layer_group
    }

    /// Get path to a layer .loam file
    pub fn loam_path(&self, name: &str) -> (r: String)
        ensures
            r@ == loam_path_spec(name@),
    {
        let mut path = String::from_str("loam/");
        path.append(name);
        path.append(".loam");
        proof {
            reveal_strlit("loam/");
            reveal_strlit(".loam");
            assert(path@ =~= loam_path_spec(name@));
        }
        path
    }
}

impl LayerGroupCfg {
    /// Get the group name
    pub fn name(&self) -> (r: &String)
        ensures
            r@ == self.name@,
    {
        &self.name
    }

    /// Group name followed by the names of its layers: `name: a b`
    pub fn describe(&self) -> (r: String)
        ensures
            r@ == describe_spec(self.name@, self.layer@),
    {
        let mut s = String::from_str(self.name.as_str());
        s.append(":");
        let mut i: usize = 0;
        while i < self.layer.len()
            invariant
                i <= self.layer@.len(),
                s@ == describe_spec(self.name@, self.layer@.take(i as int)),
            decreases self.layer@.len() - i,
        {
            proof {
                assert(self.layer@.take(i + 1).drop_last() =~= self.layer@.take(i as int));
                assert(self.layer@.take(i + 1).last() == self.layer@[i as int]);
            }
            s.append(" ");
            s.append(self.layer[i].name.as_str());
            proof {
                assert(s@ =~= describe_spec(self.name@, self.layer@.take(i + 1)));
            }
            i = i + 1;
        }
        proof {
            assert(self.layer@.take(i as int) =~= self.layer@);
        }
        s
    }
}

/// A group name, a colon, then a space and the name of each layer.
pub open spec fn describe_spec(name: Seq<char>, layers: Seq<LayerCfg>) -> Seq<char>
    decreases layers.len(),
{
    if layers.len() == 0 {
        name + ":"@
    } else {
        describe_spec(name, layers.drop_last()) + " "@ + layers.last().name@
    }
}

} // verus!
