//! Les essais du moteur : la table de conversion, le generateur, et
//! chaque operation de document, sur des documents construits sur place.
use oxyon::conversion::{Sortie, convertir};
use oxyon::format::{FormatEntree, FormatSortie};
use oxyon::generation::texte_vers_pdf;
use oxyon::modele::{Document, Objet, dict_obtenir};
use oxyon::operations::{
    PositionNumero, pdf_compresser, pdf_crop, pdf_dechiffrer, pdf_merge, pdf_numeroter,
    pdf_organiser, pdf_proteger, pdf_reparer, pdf_rotate, pdf_split, pdf_supprimer_pages,
    pdf_watermark,
};
use oxyon::Erreur;

fn doc_texte(texte: &str) -> Document {
    texte_vers_pdf(&texte.as_bytes().to_vec()).expect("generation")
}

fn doc_pages(n: usize) -> Document {
    let mut copies = Vec::new();
    for _ in 0..n {
        copies.push(texte_vers_pdf(&b"page".to_vec()).expect("generation"));
    }
    pdf_merge(&copies).expect("fusion")
}

fn rotation_page(d: &Document, position: usize) -> i64 {
    let pages = d.pages_ordonnees();
    let pid = pages[position];
    match d.cherche(pid) {
        Some(Objet::Dictionnaire(e)) => match dict_obtenir(e, "Rotate") {
            Some(Objet::Entier(a)) => *a,
            _ => 0,
        },
        _ => panic!("page absente"),
    }
}

#[test]
fn test_doc_convertir_md_vers_pdf() {
    let donnees = b"# Titre\n\nUn paragraphe de texte.".to_vec();
    let r = convertir(Some(FormatEntree::Md), Some(FormatSortie::Pdf), &donnees);
    match r {
        Ok(Sortie::Pdf(d)) => {
            assert!(d.pages_ordonnees().len() >= 1, "MD vers document sans page");
        }
        autre => panic!("MD vers document : {:?}", kind(&autre)),
    }
}

#[test]
fn test_doc_convertir_md_vers_html() {
    let donnees = b"# Titre".to_vec();
    let r = convertir(Some(FormatEntree::Md), Some(FormatSortie::Html), &donnees);
    match r {
        Ok(Sortie::Texte(t)) => {
            let texte = String::from_utf8_lossy(&t).into_owned();
            assert!(texte.contains("<h1>"), "le titre n'est pas rendu : {texte}");
            assert!(texte.contains("</body></html>"));
        }
        autre => panic!("MD vers HTML : {:?}", kind(&autre)),
    }
}

#[test]
fn test_doc_convertir_md_vers_docx() {
    let donnees = b"# Titre\n\ncorps".to_vec();
    let r = convertir(Some(FormatEntree::Md), Some(FormatSortie::Docx), &donnees);
    match r {
        Ok(Sortie::Paquet(z)) => {
            assert!(z.len() > 0, "paquet vide");
            assert_eq!(&z[0..2], b"PK", "pas une archive zip");
        }
        autre => panic!("MD vers paquet : {:?}", kind(&autre)),
    }
}

#[test]
fn test_doc_convertir_docx_vers_pdf() {
    // un paquet ecrit par le moteur, relu par le moteur
    let paquet = match convertir(Some(FormatEntree::Txt), Some(FormatSortie::Docx), &b"ligne un\nligne deux".to_vec()) {
        Ok(Sortie::Paquet(z)) => z,
        autre => panic!("texte vers paquet : {:?}", kind(&autre)),
    };
    let r = convertir(Some(FormatEntree::Docx), Some(FormatSortie::Pdf), &paquet);
    match r {
        Ok(Sortie::Pdf(d)) => {
            assert!(d.pages_ordonnees().len() >= 1);
        }
        autre => panic!("paquet vers document : {:?}", kind(&autre)),
    }
}

#[test]
fn test_doc_convertir_docx_vers_html() {
    let paquet = match convertir(Some(FormatEntree::Txt), Some(FormatSortie::Docx), &b"bonjour".to_vec()) {
        Ok(Sortie::Paquet(z)) => z,
        autre => panic!("texte vers paquet : {:?}", kind(&autre)),
    };
    let r = convertir(Some(FormatEntree::Docx), Some(FormatSortie::Html), &paquet);
    match r {
        Ok(Sortie::Texte(t)) => {
            let texte = String::from_utf8_lossy(&t).into_owned();
            assert!(texte.contains("bonjour"), "le texte est perdu : {texte}");
        }
        autre => panic!("paquet vers HTML : {:?}", kind(&autre)),
    }
}

#[test]
fn test_doc_convertir_html_vers_pdf() {
    let donnees = b"<html><body><p>Bonjour</p></body></html>".to_vec();
    let r = convertir(Some(FormatEntree::Html), Some(FormatSortie::Pdf), &donnees);
    match r {
        Ok(Sortie::Pdf(d)) => {
            assert!(d.pages_ordonnees().len() >= 1);
        }
        autre => panic!("HTML vers document : {:?}", kind(&autre)),
    }
}

#[test]
fn test_doc_convertir_html_vers_md() {
    let donnees = b"<h1>Titre</h1><p>corps</p>".to_vec();
    let r = convertir(Some(FormatEntree::Html), Some(FormatSortie::Md), &donnees);
    match r {
        Ok(Sortie::Texte(t)) => {
            let texte = String::from_utf8_lossy(&t).into_owned();
            assert!(texte.contains("Titre"), "le titre est perdu : {texte}");
            assert_ne!(t, donnees, "la restitution a rendu l'entree telle quelle");
        }
        autre => panic!("HTML vers MD : {:?}", kind(&autre)),
    }
}

#[test]
fn test_doc_convertir_txt_vers_pdf() {
    let donnees = b"une ligne de texte".to_vec();
    let r = convertir(Some(FormatEntree::Txt), Some(FormatSortie::Pdf), &donnees);
    match r {
        Ok(Sortie::Pdf(d)) => {
            assert_eq!(d.pages_ordonnees().len(), 1);
        }
        autre => panic!("texte vers document : {:?}", kind(&autre)),
    }
}

#[test]
fn test_doc_convertir_txt_vers_html() {
    let donnees = b"a < b & c\n\nsecond".to_vec();
    let r = convertir(Some(FormatEntree::Txt), Some(FormatSortie::Html), &donnees);
    match r {
        Ok(Sortie::Texte(t)) => {
            let texte = String::from_utf8_lossy(&t).into_owned();
            assert!(texte.contains("a &lt; b &amp; c"), "echappement manquant : {texte}");
            assert!(texte.contains("<p>second</p>"), "paragraphe manquant : {texte}");
        }
        autre => panic!("texte vers HTML : {:?}", kind(&autre)),
    }
}

#[test]
fn test_doc_convertir_odt_vers_pdf() {
    // un conteneur bureautique minimal fabrique sur place
    let odt = conteneur_odt("Bonjour depuis le conteneur");
    let r = convertir(Some(FormatEntree::Odt), Some(FormatSortie::Pdf), &odt);
    match r {
        Ok(Sortie::Pdf(d)) => {
            assert!(d.pages_ordonnees().len() >= 1);
        }
        autre => panic!("conteneur vers document : {:?}", kind(&autre)),
    }
}

#[test]
fn test_doc_convertir_odt_vers_html() {
    let odt = conteneur_odt("contenu odt");
    let r = convertir(Some(FormatEntree::Odt), Some(FormatSortie::Html), &odt);
    match r {
        Ok(Sortie::Texte(t)) => {
            let texte = String::from_utf8_lossy(&t).into_owned();
            assert!(texte.contains("contenu odt"), "le texte est perdu : {texte}");
        }
        autre => panic!("conteneur vers HTML : {:?}", kind(&autre)),
    }
}

#[test]
fn test_doc_pdf_split() {
    let d = doc_pages(1);
    let r = pdf_split(&d, "essai");
    let sorties = r.expect("eclatement");
    assert_eq!(sorties.len(), 1);
    assert_eq!(sorties[0].0, "essai_page_0001.pdf");
    assert_eq!(sorties[0].1.pages_ordonnees().len(), 1);
}

#[test]
fn test_doc_pdf_merge() {
    let a = doc_texte("premier");
    let b = doc_texte("second");
    let m = pdf_merge(&vec![a, b]).expect("fusion");
    assert_eq!(m.pages_ordonnees().len(), 2);
}

#[test]
fn test_doc_pdf_rotate() {
    let mut d = doc_texte("page");
    pdf_rotate(&mut d, 90, None).expect("rotation");
    assert_eq!(rotation_page(&d, 0), 90);
}

#[test]
fn test_doc_pdf_rotate_180() {
    let mut d = doc_texte("page");
    pdf_rotate(&mut d, 180, None).expect("rotation");
    assert_eq!(rotation_page(&d, 0), 180);
}

#[test]
fn test_doc_pdf_rotate_pages_specifiques() {
    let mut d = doc_pages(2);
    let cibles = vec![1u32];
    pdf_rotate(&mut d, 90, Some(&cibles)).expect("rotation");
    assert_eq!(rotation_page(&d, 0), 90);
    assert_eq!(rotation_page(&d, 1), 0);
}

#[test]
fn test_doc_pdf_compress() {
    let mut d = doc_texte("page a nettoyer");
    let avant = d.objets.len();
    pdf_compresser(&mut d).expect("compression");
    assert!(d.objets.len() <= avant);
    assert_eq!(d.pages_ordonnees().len(), 1);
}

#[test]
fn test_doc_pdf_crop() {
    let mut d = doc_texte("page");
    pdf_crop(&mut d, 10, 10, 80, 80, None).expect("recadrage");
    let pages = d.pages_ordonnees();
    match d.cherche(pages[0]) {
        Some(Objet::Dictionnaire(e)) => match dict_obtenir(e, "CropBox") {
            Some(Objet::Tableau(t)) => assert_eq!(t.len(), 4),
            autre => panic!("CropBox absent : {}", present(autre)),
        },
        _ => panic!("page absente"),
    }
}

#[test]
fn test_doc_pdf_organiser() {
    let mut d = doc_texte("page");
    pdf_organiser(&mut d, &[1]).expect("reorganisation");
    assert_eq!(d.pages_ordonnees().len(), 1);
}

#[test]
fn test_doc_pdf_supprimer_pages() {
    let mut d = doc_pages(3);
    pdf_supprimer_pages(&mut d, &[2]).expect("suppression");
    assert_eq!(d.pages_ordonnees().len(), 2);
}

#[test]
fn test_doc_pdf_numeroter() {
    let mut d = doc_texte("page");
    pdf_numeroter(&mut d, 1, PositionNumero::BasCentre, 10).expect("numerotation");
    assert_eq!(d.pages_ordonnees().len(), 1);
}

#[test]
fn test_doc_pdf_watermark() {
    let mut d = doc_texte("page");
    pdf_watermark(&mut d, &b"TEST".to_vec(), 40, 300, None).expect("filigrane");
    assert!(flux_contenant(&d, b"(TEST) Tj"), "le filigrane n'est pas pose");
}

#[test]
fn test_doc_pdf_repair() {
    let mut d = doc_texte("page");
    pdf_reparer(&mut d).expect("reparation");
    assert_eq!(d.pages_ordonnees().len(), 1);
}

#[test]
fn test_doc_pdf_protect_unlock() {
    let mut d = doc_texte("page");
    pdf_proteger(&mut d, "owner123", "user123", true, false);
    assert!(d.chiffrement.is_some());
    pdf_dechiffrer(&mut d, "owner123").expect("ouverture");
    assert!(d.chiffrement.is_none());
}

#[test]
fn test_audio_formats_compatibles() {
    let fmts = oxyon::media::formats_compatibles("mp3");
    assert!(!fmts.is_empty(), "la table des formats compatibles est vide");
    assert!(fmts.iter().any(|f| f == "wav"), "la conversion vers wav manque");
}

// ── aides ──

fn kind<T>(r: &Result<T, Erreur>) -> String {
    match r {
        Ok(_) => "Ok".to_string(),
        Err(e) => format!("{:?}", e),
    }
}

fn present(o: Option<&Objet>) -> String {
    match o {
        Some(_) => "present".to_string(),
        None => "absent".to_string(),
    }
}

fn flux_contenant(d: &Document, motif: &[u8]) -> bool {
    d.objets.iter().any(|(_, o)| match o {
        Objet::Flux(_, contenu) => contenu.windows(motif.len()).any(|w| w == motif),
        _ => false,
    })
}

fn conteneur_odt(texte: &str) -> Vec<u8> {
    let mut z = zip::ZipWriter::new(std::io::Cursor::new(Vec::new()));
    let options = zip::write::SimpleFileOptions::default()
        .compression_method(zip::CompressionMethod::Deflated);
    z.start_file("content.xml", options).unwrap();
    let corps = format!(
        "<?xml version=\"1.0\"?><office:document-content><office:body><office:text><text:p>{}</text:p></office:text></office:body></office:document-content>",
        texte
    );
    std::io::Write::write_all(&mut z, corps.as_bytes()).unwrap();
    z.finish().unwrap().into_inner()
}
