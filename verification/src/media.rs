//! Donnees annexes des collaborateurs du moteur : le catalogue des
//! formats d'image, les fiches de personnes des metadonnees, et la table
//! de compatibilite des formats audio. Les conversions elles-memes, qui
//! ne sont que des appels a des decodeurs, restent chez l'application
//! hote.
use vstd::prelude::*;

verus! {

/// Les formats d'image reconnus.
#[derive(Debug, Clone, Copy, PartialEq, Eq, Structural)]
pub enum ImageFormat {
    Gif,
    Jpg,
    Png,
    WebP,
    Avif,
    Heic,
    Exr,
    Jxl,
    Tiff,
    Ico,
    Hdr,
    Svg,
    Raw,
    Dng,
    Psd,
}

impl ImageFormat {
    /// L'extension de fichier canonique du format.
    pub fn extension(&self) -> (r: &'static str)
        ensures
            r@ == extension_image(*self),
    {
        proof {
            reveal_strlit("gif");
            reveal_strlit("jpg");
            reveal_strlit("png");
            reveal_strlit("webp");
            reveal_strlit("avif");
            reveal_strlit("heic");
            reveal_strlit("exr");
            reveal_strlit("jxl");
            reveal_strlit("tiff");
            reveal_strlit("ico");
            reveal_strlit("hdr");
            reveal_strlit("svg");
            reveal_strlit("raw");
            reveal_strlit("dng");
            reveal_strlit("psd");
        }
        match self {
            ImageFormat::Gif => "gif",
            ImageFormat::Jpg => "jpg",
            ImageFormat::Png => "png",
            ImageFormat::WebP => "webp",
            ImageFormat::Avif => "avif",
            ImageFormat::Heic => "heic",
            ImageFormat::Exr => "exr",
            ImageFormat::Jxl => "jxl",
            ImageFormat::Tiff => "tiff",
            ImageFormat::Ico => "ico",
            ImageFormat::Hdr => "hdr",
            ImageFormat::Svg => "svg",
            ImageFormat::Raw => "raw",
            ImageFormat::Dng => "dng",
            ImageFormat::Psd => "psd",
        }
    }
}

/// L'extension canonique, au niveau des vues.
pub open spec fn extension_image(f: ImageFormat) -> Seq<char> {
    match f {
        ImageFormat::Gif => "gif"@,
        ImageFormat::Jpg => "jpg"@,
        ImageFormat::Png => "png"@,
        ImageFormat::WebP => "webp"@,
        ImageFormat::Avif => "avif"@,
        ImageFormat::Heic => "heic"@,
        ImageFormat::Exr => "exr"@,
        ImageFormat::Jxl => "jxl"@,
        ImageFormat::Tiff => "tiff"@,
        ImageFormat::Ico => "ico"@,
        ImageFormat::Hdr => "hdr"@,
        ImageFormat::Svg => "svg"@,
        ImageFormat::Raw => "raw"@,
        ImageFormat::Dng => "dng"@,
        ImageFormat::Psd => "psd"@,
    }
}

/// Une personne au generique d'une oeuvre.
pub struct Actor {
    pub name: String,
    pub role: String,
    pub thumb: Option<String>,
    pub profile: String,
    pub id: i64,
}

/// Une plume au generique d'une oeuvre.
pub struct Writer {
    pub name: String,
    pub tmdbid: i64,
}

/// Une production au generique d'une oeuvre.
pub struct Producer {
    pub name: String,
    pub role: String,
    pub thumb: Option<String>,
    pub profile: String,
    pub tmdbid: i64,
}

/// Les formats audio vers lesquels un format source se convertit : les
/// cinq formats courants se convertissent tous entre eux, un format
/// inconnu vers rien.
pub fn formats_compatibles(source: &str) -> (r: Vec<String>)
    ensures
        (source@ == "mp3"@ || source@ == "wav"@ || source@ == "flac"@ || source@ == "ogg"@
            || source@ == "aac"@) ==> r@.len() == 5 && (r@[0])@ == "wav"@ && (r@[1])@ == "mp3"@
            && (r@[2])@ == "flac"@ && (r@[3])@ == "ogg"@ && (r@[4])@ == "aac"@,
        !(source@ == "mp3"@ || source@ == "wav"@ || source@ == "flac"@ || source@ == "ogg"@
            || source@ == "aac"@) ==> r@.len() == 0,
{
    proof {
        reveal_strlit("mp3");
        reveal_strlit("wav");
        reveal_strlit("flac");
        reveal_strlit("ogg");
        reveal_strlit("aac");
    }
    let mut r: Vec<String> = Vec::new();
    if source.eq("mp3") || source.eq("wav") || source.eq("flac") || source.eq("ogg") || source.eq(
        "aac",
    ) {
        r.push("wav".to_owned());
        r.push("mp3".to_owned());
        r.push("flac".to_owned());
        r.push("ogg".to_owned());
        r.push("aac".to_owned());
        proof {
            assert((r@[0])@ == "wav"@);
        }
    }
    r
}

} // verus!
