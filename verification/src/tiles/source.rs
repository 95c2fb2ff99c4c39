//! What tiles there are, and where they are asked for.
use vstd::prelude::*;

use super::cache::TileBytes;
use crate::text;
use crate::text::{contains_text, http_error, put_decimal};
use crate::trailfmt::tile;
use crate::trailfmt::tile::lossy_text;

verus! {

#[derive(Clone, Copy, Debug, PartialEq, Eq, Hash, Structural)]
pub enum RasterLayer {
    PlanIgn,
    Contours,
    Slopes,
    Ortho,
}

#[derive(Clone, Copy, Debug, PartialEq, Eq, Hash, Structural)]
pub enum Dataset {
    Raster(RasterLayer),
    /// Elevations, on the geographic grid, in thirty-two bits each.
    Elevation,
}

#[derive(Clone, Copy, Debug, PartialEq, Eq, Hash, Structural)]
pub struct TileDesc {
    pub dataset: Dataset,
    pub z: u8,
    pub x: u32,
    pub y: u32,
}

/// What the service calls a layer.
pub open spec fn layer_name(l: RasterLayer) -> Seq<char> {
    match l {
        RasterLayer::PlanIgn => "GEOGRAPHICALGRIDSYSTEMS.PLANIGNV2"@,
        RasterLayer::Contours => "ELEVATION.CONTOUR.LINE"@,
        RasterLayer::Slopes => "GEOGRAPHICALGRIDSYSTEMS.SLOPES.MOUNTAIN"@,
        RasterLayer::Ortho => "ORTHOIMAGERY.ORTHOPHOTOS"@,
    }
}

/// The image format of a layer.
pub open spec fn layer_format(l: RasterLayer) -> Seq<char> {
    match l {
        RasterLayer::Ortho => "image/jpeg"@,
        _ => "image/png"@,
    }
}

impl RasterLayer {
    pub fn wmts_name(self) -> (s: &'static str)
        ensures
            s@ == layer_name(self),
    {
        match self {
            RasterLayer::PlanIgn => "GEOGRAPHICALGRIDSYSTEMS.PLANIGNV2",
            RasterLayer::Contours => "ELEVATION.CONTOUR.LINE",
            RasterLayer::Slopes => "GEOGRAPHICALGRIDSYSTEMS.SLOPES.MOUNTAIN",
            RasterLayer::Ortho => "ORTHOIMAGERY.ORTHOPHOTOS",
        }
    }

    pub fn format(self) -> (s: &'static str)
        ensures
            s@ == layer_format(self),
    {
        match self {
            RasterLayer::Ortho => "image/jpeg",
            _ => "image/png",
        }
    }

    /// First and last zoom of the layer. Past them it does not exist, and a
    /// magnified parent tile takes its place.
    pub fn zoom_range(self) -> (r: (u8, u8))
        ensures
            r == match self {
                RasterLayer::PlanIgn => (0u8, 19u8),
                RasterLayer::Contours => (6u8, 18u8),
                RasterLayer::Slopes => (0u8, 17u8),
                RasterLayer::Ortho => (0u8, 19u8),
            },
    {
        match self {
            RasterLayer::PlanIgn => (0, 19),
            RasterLayer::Contours => (6, 18),
            RasterLayer::Slopes => (0, 17),
            RasterLayer::Ortho => (0, 19),
        }
    }

    /// Whether this is an opaque ground layer: exactly one of them is drawn, and
    /// the transparent layers go on top.
    pub fn is_base(self) -> (b: bool)
        ensures
            b == (self == RasterLayer::PlanIgn || self == RasterLayer::Ortho),
    {
        match self {
            RasterLayer::PlanIgn => true,
            RasterLayer::Ortho => true,
            _ => false,
        }
    }

    pub fn label(self) -> (s: &'static str)
        ensures
            s@ == match self {
                RasterLayer::PlanIgn => "IGN topo map"@,
                RasterLayer::Contours => "Contour lines"@,
                RasterLayer::Slopes => "Slope shading"@,
                RasterLayer::Ortho => "Aerial imagery"@,
            },
    {
        match self {
            RasterLayer::PlanIgn => "IGN topo map",
            RasterLayer::Contours => "Contour lines",
            RasterLayer::Slopes => "Slope shading",
            RasterLayer::Ortho => "Aerial imagery",
        }
    }
}

/// What the service calls a dataset, the grid it is on, and its format.
pub open spec fn dataset_names(d: Dataset) -> (Seq<char>, Seq<char>, Seq<char>) {
    match d {
        Dataset::Raster(l) => (layer_name(l), "PM"@, layer_format(l)),
        Dataset::Elevation => (
            "ELEVATION.ELEVATIONGRIDCOVERAGE.HIGHRES"@,
            "WGS84G"@,
            "image/x-bil;bits=32"@,
        ),
    }
}

/// The address of a tile at a service.
pub open spec fn tile_url(base: Seq<char>, desc: TileDesc) -> Seq<char> {
    let (layer, grid, format) = dataset_names(desc.dataset);
    base + "?SERVICE=WMTS&VERSION=1.0.0&REQUEST=GetTile&LAYER="@ + layer
        + "&STYLE=normal&TILEMATRIXSET="@ + grid + "&TILEMATRIX="@ + text::decimal(desc.z as nat)
        + "&TILEROW="@ + text::decimal(desc.y as nat) + "&TILECOL="@ + text::decimal(desc.x as nat)
        + "&FORMAT="@ + format
}

/// A tile service that is asked over the network.
#[derive(Clone, Debug)]
pub struct HttpTileSource {
    pub base: String,
}

impl Default for HttpTileSource {
    fn default() -> (s: Self)
        ensures
            s.base@ == "https://data.geopf.fr/wmts"@,
    {
        HttpTileSource { base: "https://data.geopf.fr/wmts".to_owned() }
    }
}

impl HttpTileSource {
    /// The address of a tile.
    pub fn url(&self, desc: TileDesc) -> (url: String)
        ensures
            url@ == tile_url(self.base@, desc),
    {
        let (layer, grid, format): (&'static str, &'static str, &'static str) = match desc.dataset {
            Dataset::Raster(l) => (l.wmts_name(), "PM", l.format()),
            Dataset::Elevation => (
                "ELEVATION.ELEVATIONGRIDCOVERAGE.HIGHRES",
                "WGS84G",
                "image/x-bil;bits=32",
            ),
        };
        let mut url = self.base.clone();
        url.append("?SERVICE=WMTS&VERSION=1.0.0&REQUEST=GetTile&LAYER=");
        url.append(layer);
        url.append("&STYLE=normal&TILEMATRIXSET=");
        url.append(grid);
        url.append("&TILEMATRIX=");
        put_decimal(&mut url, desc.z as u64);
        url.append("&TILEROW=");
        put_decimal(&mut url, desc.y as u64);
        url.append("&TILECOL=");
        put_decimal(&mut url, desc.x as u64);
        url.append("&FORMAT=");
        url.append(format);
        url
    }
}

/// Bytes of a reply that are quoted where it is no tile.
pub const QUOTED_BYTES: usize = 200;

/// The service reports its errors as text with a status of success.
pub open spec fn is_no_tile(content_type: Seq<char>) -> bool {
    text::stands_in(content_type, "xml"@) || text::stands_in(content_type, "text/html"@)
}

/// What a reply of the service is worth: its bytes, unless the server refused or
/// the content is no tile.
pub fn tile_reply(
    ok: bool,
    status: u16,
    status_text: &str,
    content_type: &str,
    bytes: Vec<u8>,
) -> (r: TileBytes)
    ensures
        match r {
            Ok(b) => ok && !is_no_tile(content_type@) && b == bytes,
            Err(e) => if !ok {
                e@ == text::http_error_text(status, status_text@)
            } else {
                &&& is_no_tile(content_type@)
                &&& e@ == "non-tile response ("@ + content_type@ + "): "@ + tile::name_text(
                    bytes@.take(
                        vstd::math::min(bytes@.len() as int, QUOTED_BYTES as int),
                    ),
                )
            },
        },
{
    if !ok {
        return Err(http_error(status, status_text));
    }
    if contains_text(content_type, "xml") || contains_text(content_type, "text/html") {
        let n: usize = if bytes.len() < QUOTED_BYTES {
            bytes.len()
        } else {
            QUOTED_BYTES
        };
        let quoted = vstd::slice::slice_subrange(bytes.as_slice(), 0, n);
        assert(quoted@ =~= bytes@.take(n as int));
        let shown = lossy_text(quoted);
        let mut e = "non-tile response (".to_owned();
        e.append(content_type);
        e.append("): ");
        e.append(shown.as_str());
        return Err(e);
    }
    Ok(bytes)
}

/// The address of a tile starts with that of its service, and names the layer, the
/// grid, the zoom, the row before the column, and the format.
pub proof fn law_an_address_names_its_tile(base: Seq<char>, desc: TileDesc)
    ensures
        tile_url(base, desc).take(base.len() as int) == base,
        text::stands_in(
            tile_url(base, desc),
            "&TILEMATRIX="@ + text::decimal(desc.z as nat) + "&TILEROW="@ + text::decimal(
                desc.y as nat,
            ) + "&TILECOL="@ + text::decimal(desc.x as nat) + "&FORMAT="@,
        ),
        desc.dataset matches Dataset::Raster(l) ==> text::stands_in(
            tile_url(base, desc),
            "&LAYER="@ + layer_name(l) + "&STYLE=normal&TILEMATRIXSET="@ + "PM"@,
        ),
        desc.dataset is Elevation ==> text::stands_in(
            tile_url(base, desc),
            "&LAYER="@ + "ELEVATION.ELEVATIONGRIDCOVERAGE.HIGHRES"@
                + "&STYLE=normal&TILEMATRIXSET="@ + "WGS84G"@,
        ),
{
    let (layer, grid, format) = dataset_names(desc.dataset);
    let url = tile_url(base, desc);
    let intro = "?SERVICE=WMTS&VERSION=1.0.0&REQUEST=GetTile&LAYER="@;
    let head = base + intro;
    let style = "&STYLE=normal&TILEMATRIXSET="@;
    let place = "&TILEMATRIX="@ + text::decimal(desc.z as nat) + "&TILEROW="@ + text::decimal(
        desc.y as nat,
    ) + "&TILECOL="@ + text::decimal(desc.x as nat) + "&FORMAT="@;
    let front = head + layer + style + grid;
    assert(url =~= front + place + format);
    assert(url.take(base.len() as int) =~= base);
    assert(url.subrange(front.len() as int, (front.len() + place.len()) as int) =~= place);
    assert(text::stands_at(url, place, front.len() as int));
    reveal_strlit("?SERVICE=WMTS&VERSION=1.0.0&REQUEST=GetTile&LAYER=");
    reveal_strlit("&LAYER=");
    let named = "&LAYER="@ + layer + style + grid;
    let at = (base.len() + intro.len() - 7) as int;
    assert(intro.skip(intro.len() - 7) =~= "&LAYER="@);
    assert(head.subrange(at, at + 7) =~= intro.skip(intro.len() - 7));
    assert(url =~= head.take(at) + head.skip(at) + layer + style + grid + place + format);
    assert(head.skip(at) =~= "&LAYER="@);
    assert(url =~= head.take(at) + named + (place + format));
    assert(url.subrange(at, at + named.len()) =~= named);
    assert(text::stands_at(url, named, at));
}

} // verus!
