//! Les proprietes du moteur jouees sur des valeurs concretes : les
//! allers-retours, les bords, et chaque famille d'erreur.
use oxyon::conversion::{Sortie, convertir, extraire_texte};
use oxyon::format::{FormatEntree, FormatSortie, detecter_format_entree, detecter_format_sortie};
use oxyon::generation::texte_vers_pdf;
use oxyon::modele::{Document, Objet, dict_obtenir};
use oxyon::operations::{
    PositionNumero, octets_economises, pdf_crop, pdf_dechiffrer, pdf_merge, pdf_numeroter,
    pdf_organiser, pdf_proteger, pdf_rotate, pdf_split, pdf_supprimer_pages,
};
use oxyon::pont::{Plan, appliquer_operation_doc};
use oxyon::Erreur;

fn doc_texte(texte: &str) -> Document {
    texte_vers_pdf(&texte.as_bytes().to_vec()).expect("generation")
}

fn doc_pages(n: usize) -> Document {
    let mut copies = Vec::new();
    for _ in 0..n {
        copies.push(texte_vers_pdf(&b"page".to_vec()).expect("generation"));
    }
    pdf_merge(&copies).expect("fusion")
}

fn rotation_page(d: &Document, position: usize) -> i64 {
    let pages = d.pages_ordonnees();
    match d.cherche(pages[position]) {
        Some(Objet::Dictionnaire(e)) => match dict_obtenir(e, "Rotate") {
            Some(Objet::Entier(a)) => *a,
            _ => 0,
        },
        _ => panic!("page absente"),
    }
}

#[test]
fn eclater_puis_fusionner_rend_le_compte() {
    let d = doc_pages(3);
    let morceaux = pdf_split(&d, "rond").expect("eclatement");
    assert_eq!(morceaux.len(), 3);
    let docs: Vec<Document> = morceaux.into_iter().map(|(_, s)| s).collect();
    let refusion = pdf_merge(&docs).expect("fusion");
    assert_eq!(refusion.pages_ordonnees().len(), 3);
}

#[test]
fn fusion_additionne_les_pages() {
    let a = doc_pages(2);
    let b = doc_pages(3);
    let m = pdf_merge(&vec![a, b]).expect("fusion");
    assert_eq!(m.pages_ordonnees().len(), 5);
}

#[test]
fn deux_quarts_de_tour_valent_un_demi_tour() {
    let mut deux_fois = doc_texte("page");
    pdf_rotate(&mut deux_fois, 90, None).expect("rotation");
    pdf_rotate(&mut deux_fois, 90, None).expect("rotation");
    let mut une_fois = doc_texte("page");
    pdf_rotate(&mut une_fois, 180, None).expect("rotation");
    assert_eq!(rotation_page(&deux_fois, 0), rotation_page(&une_fois, 0));
}

#[test]
fn rotation_refusee_hors_quarts_de_tour() {
    let mut d = doc_texte("page");
    assert_eq!(pdf_rotate(&mut d, 45, None), Err(Erreur::Structurelle));
}

#[test]
fn reorganiser_sur_la_premiere_page() {
    let d3 = doc_pages(3);
    let pages_avant = d3.pages_ordonnees();
    let mut d = d3;
    pdf_organiser(&mut d, &[1]).expect("reorganisation");
    let pages_apres = d.pages_ordonnees();
    assert_eq!(pages_apres.len(), 1);
    assert_eq!(pages_apres[0], pages_avant[0]);
}

#[test]
fn reorganiser_trois_un_deux() {
    let d3 = doc_pages(3);
    let pages_avant = d3.pages_ordonnees();
    let mut d = d3;
    pdf_organiser(&mut d, &[3, 1, 2]).expect("reorganisation");
    let pages_apres = d.pages_ordonnees();
    assert_eq!(pages_apres[0], pages_avant[2]);
    assert_eq!(pages_apres[1], pages_avant[0]);
    assert_eq!(pages_apres[2], pages_avant[1]);
}

#[test]
fn reorganiser_refuse_hors_limites() {
    let mut d = doc_pages(2);
    assert_eq!(pdf_organiser(&mut d, &[5]), Err(Erreur::Structurelle));
}

#[test]
fn supprimer_garde_l_ordre() {
    let d3 = doc_pages(3);
    let pages_avant = d3.pages_ordonnees();
    let mut d = d3;
    pdf_supprimer_pages(&mut d, &[2]).expect("suppression");
    let pages_apres = d.pages_ordonnees();
    assert_eq!(pages_apres.len(), 2);
    assert_eq!(pages_apres[0], pages_avant[0]);
    assert_eq!(pages_apres[1], pages_avant[2]);
}

#[test]
fn supprimer_tout_est_refuse() {
    let mut d = doc_texte("page");
    assert_eq!(pdf_supprimer_pages(&mut d, &[1]), Err(Erreur::Structurelle));
}

#[test]
fn proteger_puis_ouvrir() {
    let mut d = doc_texte("page");
    pdf_proteger(&mut d, "maitre", "lecteur", true, true);
    assert_eq!(pdf_dechiffrer(&mut d, "mauvais"), Err(Erreur::Chiffrement));
    assert!(d.chiffrement.is_some());
    pdf_dechiffrer(&mut d, "maitre").expect("ouverture");
    assert!(d.chiffrement.is_none());
}

#[test]
fn recadrage_plein_cadre_sans_effet() {
    let mut d = doc_texte("page");
    pdf_crop(&mut d, 0, 0, 100, 100, None).expect("recadrage");
    let pages = d.pages_ordonnees();
    match d.cherche(pages[0]) {
        Some(Objet::Dictionnaire(e)) => {
            match dict_obtenir(e, "CropBox") {
                Some(Objet::Tableau(cadre)) => {
                    // le document genere porte une page A4 entiere en milliemes
                    let attendu = [0i64, 0, 595000, 842000];
                    for (i, valeur) in attendu.iter().enumerate() {
                        assert!(
                            matches!(&cadre[i], Objet::Reel(v) if v == valeur),
                            "coin {} deplace",
                            i
                        );
                    }
                }
                _ => panic!("CropBox absent"),
            }
        }
        _ => panic!("page absente"),
    }
}

#[test]
fn compression_ne_rend_jamais_un_gain_negatif() {
    assert_eq!(octets_economises(100, 40), 60);
    assert_eq!(octets_economises(40, 100), 0);
    assert_eq!(octets_economises(7, 7), 0);
}

#[test]
fn grand_texte_vers_document() {
    let mot = "mot ";
    let texte: String = mot.repeat(500);
    let r = convertir(
        Some(FormatEntree::Md),
        Some(FormatSortie::Pdf),
        &texte.into_bytes(),
    );
    match r {
        Ok(Sortie::Pdf(d)) => {
            assert!(d.pages_ordonnees().len() >= 1);
            assert!(d.objets.iter().any(|(_, o)| matches!(o, Objet::Flux(_, c) if !c.is_empty())));
        }
        _ => panic!("la conversion a echoue"),
    }
}

#[test]
fn eclatement_nomme_les_trois_pages() {
    let d = doc_pages(3);
    let morceaux = pdf_split(&d, "dossier").expect("eclatement");
    let noms: Vec<&str> = morceaux.iter().map(|(n, _)| n.as_str()).collect();
    assert_eq!(
        noms,
        vec![
            "dossier_page_0001.pdf",
            "dossier_page_0002.pdf",
            "dossier_page_0003.pdf"
        ]
    );
}

#[test]
fn numeroter_ecrit_cinq_puis_six() {
    let mut d = doc_pages(2);
    pdf_numeroter(&mut d, 5, PositionNumero::BasCentre, 10).expect("numerotation");
    assert!(flux_contenant(&d, b"(5) Tj"), "la premiere page ne porte pas 5");
    assert!(flux_contenant(&d, b"(6) Tj"), "la seconde page ne porte pas 6");
}

#[test]
fn pont_direct_ou_indirect() {
    assert!(matches!(appliquer_operation_doc("dossier/fichier.PDF", "a1"), Plan::Direct));
    match appliquer_operation_doc("notes.md", "a1") {
        Plan::Indirect { temporaire_entree, temporaire_sortie } => {
            assert_eq!(temporaire_entree, "tmp_a1.pdf");
            assert_eq!(temporaire_sortie, "tmp_a1_out.pdf");
            assert_ne!(temporaire_entree, temporaire_sortie);
        }
        Plan::Direct => panic!("un chemin non natif doit passer par le pont"),
    }
}

#[test]
fn jetons_distincts_donnent_des_temporaires_distincts() {
    let a = appliquer_operation_doc("notes.md", "a1");
    let b = appliquer_operation_doc("notes.md", "b2");
    match (a, b) {
        (
            Plan::Indirect { temporaire_entree: e1, .. },
            Plan::Indirect { temporaire_entree: e2, .. },
        ) => assert_ne!(e1, e2),
        _ => panic!("les deux appels doivent passer par le pont"),
    }
}

#[test]
fn detection_des_formats() {
    assert_eq!(detecter_format_entree("a/b/note.MD"), Some(FormatEntree::Md));
    assert_eq!(detecter_format_entree("piece.docx"), Some(FormatEntree::Docx));
    assert_eq!(detecter_format_entree("archive.tar"), None);
    assert_eq!(detecter_format_entree("sans_extension"), None);
    assert_eq!(detecter_format_sortie("sortie.htm"), Some(FormatSortie::Html));
    assert_eq!(detecter_format_sortie("sortie.txt"), Some(FormatSortie::Plain));
    assert_eq!(detecter_format_sortie("sortie.bin"), None);
}

#[test]
fn extraction_passe_par_le_rendu_markdown() {
    let texte = extraire_texte(Some(FormatEntree::Md), &b"# Titre".to_vec()).expect("extraction");
    assert_eq!(texte, b"Titre\n".to_vec());
}

#[test]
fn extraction_decode_les_entites() {
    let texte = extraire_texte(
        Some(FormatEntree::Html),
        &b"<p>a &amp; b &lt;c&gt;&nbsp;&quot;d&quot;&#39;</p>".to_vec(),
    )
    .expect("extraction");
    assert_eq!(texte, b"a & b <c> \"d\"'".to_vec());
}

#[test]
fn paire_inconnue_degrade_en_copie() {
    let r = convertir(None, None, &b"octets quelconques".to_vec());
    assert!(matches!(r, Ok(Sortie::CopieDirecte)));
}

#[test]
fn texte_vide_donne_une_page_blanche() {
    let d = texte_vers_pdf(&Vec::new()).expect("generation");
    assert_eq!(d.pages_ordonnees().len(), 1);
}

#[test]
fn accents_encodes_pour_la_police_de_base() {
    let d = doc_texte("caf\u{e9}");
    assert!(flux_contenant(&d, &[0xE9]), "l'accent n'est pas encode");
    let i = doc_texte("caf\u{4e00}");
    assert!(flux_contenant(&i, b"caf?"), "le signe hors table doit devenir ?");
}

#[test]
fn cesure_a_quatre_vingt_dix_caracteres() {
    let ligne = "a".repeat(200);
    let d = doc_texte(&ligne);
    assert!(flux_contenant(&d, format!("({}", "a".repeat(90)).as_bytes()));
}

#[test]
fn fusion_vide_refusee() {
    let aucun: Vec<Document> = Vec::new();
    assert!(matches!(pdf_merge(&aucun), Err(Erreur::Structurelle)));
}

fn flux_contenant(d: &Document, motif: &[u8]) -> bool {
    d.objets.iter().any(|(_, o)| match o {
        Objet::Flux(_, contenu) => contenu.windows(motif.len()).any(|w| w == motif),
        _ => false,
    })
}

#[test]
fn document_vers_document_copie_directe() {
    // un document natif vers la meme cible n'a pas de chemin de conversion :
    // la table degrade en copie directe au lieu de re-rendre les octets
    let r = convertir(
        Some(FormatEntree::Pdf),
        Some(FormatSortie::Pdf),
        &b"%PDF-1.5 octets quelconques".to_vec(),
    );
    assert!(matches!(r, Ok(Sortie::CopieDirecte)));
}

#[test]
fn texte_vers_paquet_reussit_toujours() {
    let r = convertir(
        Some(FormatEntree::Txt),
        Some(FormatSortie::Docx),
        &b"bonjour".to_vec(),
    );
    match r {
        Ok(Sortie::Paquet(z)) => {
            assert!(!z.is_empty());
            let relu = extraire_texte(Some(FormatEntree::Docx), &z).expect("relecture");
            let texte = String::from_utf8(relu).expect("utf-8");
            assert!(texte.contains("bonjour"), "le paquet ne rend pas son texte");
        }
        _ => panic!("l'ecriture du paquet doit reussir"),
    }
}

#[test]
fn conteneur_illisible_rend_chargement() {
    let r = extraire_texte(Some(FormatEntree::Docx), &b"pas une archive".to_vec());
    assert_eq!(r, Err(Erreur::Chargement));
}
