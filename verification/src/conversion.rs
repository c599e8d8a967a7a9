//! Conversions entre formats : lecture des conteneurs zip a balisage XML,
//! aplatissement du balisage en texte, table de conversion dirigee par la
//! paire (format d'entree, format de sortie), et ecriture d'un paquet de
//! traitement de texte minimal. Les appels aux bibliotheques exterieures
//! passent par des elements de confiance etroits ; toute la logique qui
//! les entoure est verifiee.
use vstd::prelude::*;

use crate::Erreur;
use crate::format::{FormatEntree, FormatSortie};
use crate::generation::{nb_pages_attendu, texte_vers_pdf};
use crate::modele::Document;
use crate::texte::{
    html_vers_texte, octets_ascii, pousse_litteral, pousse_octets, remplace_seq, remplacer,
    texte_de_html, texte_vers_html,
};

verus! {

/// Le HTML que rend l'interpretation du Markdown : il ne depend que du
/// texte donne.
pub uninterp spec fn html_de_markdown(s: Seq<u8>) -> Seq<u8>;

/// Le Markdown que rend la restitution d'un HTML : il ne depend que du
/// texte donne.
pub uninterp spec fn markdown_de_html(s: Seq<u8>) -> Seq<u8>;

/// Relies on pulldown_cmark's Parser and push_html: renders Markdown to
/// HTML with the table, strikethrough and task-list extensions enabled;
/// the result depends on the input text alone.
#[verifier::external_body]
fn md_vers_html(texte: &Vec<u8>) -> (r: Vec<u8>)
    ensures
        r@ == html_de_markdown(texte@),
{
    let mut options = pulldown_cmark::Options::empty();
    options.insert(pulldown_cmark::Options::ENABLE_TABLES);
    options.insert(pulldown_cmark::Options::ENABLE_STRIKETHROUGH);
    options.insert(pulldown_cmark::Options::ENABLE_TASKLISTS);
    let source = String::from_utf8_lossy(texte);
    let parser = pulldown_cmark::Parser::new_ext(&source, options);
    let mut html = String::new();
    pulldown_cmark::html::push_html(&mut html, parser);
    html.into_bytes()
}

/// Relies on html2md's parse_html: renders HTML to Markdown, preserving
/// block structure; the result depends on the input text alone.
#[verifier::external_body]
fn html_vers_md(html: &Vec<u8>) -> (r: Vec<u8>)
    ensures
        r@ == markdown_de_html(html@),
{
    let source = String::from_utf8_lossy(html);
    html2md::parse_html(&source).into_bytes()
}

/// Les octets dont une archive ouverte est la lecture.
pub uninterp spec fn octets_archive(archive: zip::ZipArchive<std::io::Cursor<Vec<u8>>>) -> Seq<u8>;

/// Les octets decompresses de la partie nommee d'une archive : ils ne
/// dependent que des octets de l'archive et du nom. Ils manquent quand
/// l'entree est absente ou que son flux ne se decompresse pas.
pub uninterp spec fn partie_nommee(donnees: Seq<u8>, nom: Seq<char>) -> Option<Seq<u8>>;

/// Les octets s'ouvrent-ils comme une archive ? Fonction des octets seuls.
pub uninterp spec fn archive_lisible(donnees: Seq<u8>) -> bool;

/// Une archive zip ouverte sur des octets en memoire.
#[verifier::external_type_specification]
#[verifier::external_body]
#[verifier::reject_recursive_types(T)]
pub struct ExCurseur<T>(std::io::Cursor<T>);

#[verifier::external_type_specification]
#[verifier::external_body]
#[verifier::reject_recursive_types(R)]
pub struct ExArchiveZip<R>(zip::ZipArchive<R>);

/// L'ecrivain d'archives : la declaration du type exterieur avec ses
/// bornes est refusee, le champ reste donc cache derriere ce porteur.
#[verifier::external_body]
pub struct EcrivainDocx {
    interne: zip::ZipWriter<std::io::Cursor<Vec<u8>>>,
}

/// Les parties deja confiees a l'ecrivain : nom et octets de chacune,
/// dans l'ordre.
pub uninterp spec fn parties_ecrites(ecrivain: EcrivainDocx) -> Seq<(Seq<char>, Seq<u8>)>;

/// Les octets de l'archive que ces parties scellent. Sans l'horodatage
/// (la date fixe de reference sert d'estampille quand l'horloge n'est pas
/// compilee, comme ici), ils ne dependent que des parties.
pub uninterp spec fn archive_de(parties: Seq<(Seq<char>, Seq<u8>)>) -> Seq<u8>;

/// Relies on zip's ZipArchive::new: opens a zip archive over in-memory
/// bytes, succeeding exactly when the central directory is well formed —
/// a function of the bytes alone. The opened archive reads exactly the
/// given bytes.
#[verifier::external_body]
fn ouvrir_archive(donnees: &Vec<u8>) -> (r: Result<
    zip::ZipArchive<std::io::Cursor<Vec<u8>>>,
    Erreur,
>)
    ensures
        (r is Ok) <==> archive_lisible(donnees@),
        r matches Ok(a) ==> octets_archive(a) == donnees@,
        r is Err ==> r->Err_0 == Erreur::Chargement,
{
    match zip::ZipArchive::new(std::io::Cursor::new(donnees.clone())) {
        Ok(a) => Ok(a),
        Err(_) => Err(Erreur::Chargement),
    }
}

/// Relies on zip's ZipArchive::by_name and std's Read::read_to_end: hands
/// back the decompressed bytes of the named entry, a function of the
/// archive's bytes and the name alone; it fails exactly when that
/// function has no value there, the entry absent or its flux corrupt.
/// Reading leaves the archive's bytes as they were.
#[verifier::external_body]
fn partie_archive(
    archive: &mut zip::ZipArchive<std::io::Cursor<Vec<u8>>>,
    nom: &str,
) -> (r: Result<Vec<u8>, Erreur>)
    ensures
        octets_archive(*final(archive)) == octets_archive(*old(archive)),
        (r is Ok) <==> partie_nommee(octets_archive(*old(archive)), nom@) is Some,
        r matches Ok(c) ==> partie_nommee(octets_archive(*old(archive)), nom@) == Some(c@),
        r is Err ==> r->Err_0 == Erreur::Chargement,
{
    match archive.by_name(nom) {
        Ok(mut fichier) => {
            let mut contenu = Vec::new();
            match std::io::Read::read_to_end(&mut fichier, &mut contenu) {
                Ok(_) => Ok(contenu),
                Err(_) => Err(Erreur::Chargement),
            }
        },
        Err(_) => Err(Erreur::Chargement),
    }
}

/// Relies on zip's ZipWriter::new over an in-memory cursor: an archive
/// without parties.
#[verifier::external_body]
fn ecrivain_zip() -> (r: EcrivainDocx)
    ensures
        parties_ecrites(r) == Seq::<(Seq<char>, Seq<u8>)>::empty(),
{
    EcrivainDocx { interne: zip::ZipWriter::new(std::io::Cursor::new(Vec::new())) }
}

/// Relies on zip's ZipWriter::start_file: opens a deflated entry under
/// the given name, sealing the previous one. Over an in-memory cursor the
/// source fails on two things only, a name already taken or one too long
/// for its field; the preconditions rule both out, so the entry opens.
#[verifier::external_body]
fn entree_zip(ecrivain: &mut EcrivainDocx, nom: &str) -> (r: Result<(), Erreur>)
    requires
        nom@.len() <= 0x3FFF,
        forall|i: int|
            0 <= i < parties_ecrites(*old(ecrivain)).len() ==> (#[trigger] parties_ecrites(
                *old(ecrivain),
            )[i]).0 != nom@,
    ensures
        r is Ok,
        parties_ecrites(*final(ecrivain)) == parties_ecrites(*old(ecrivain)).push(
            (nom@, Seq::<u8>::empty()),
        ),
{
    let options = zip::write::SimpleFileOptions::default().compression_method(
        zip::CompressionMethod::Deflated,
    );
    match ecrivain.interne.start_file(nom, options) {
        Ok(()) => Ok(()),
        Err(_) => Err(Erreur::EntreeSortie),
    }
}

/// Relies on std's Write::write_all through zip's ZipWriter: the bytes
/// append to the entry currently open. Into an in-memory buffer, below
/// the large-entry threshold the source enforces, nothing fails.
#[verifier::external_body]
fn donnees_zip(ecrivain: &mut EcrivainDocx, donnees: &Vec<u8>) -> (r: Result<(), Erreur>)
    requires
        parties_ecrites(*old(ecrivain)).len() >= 1,
        parties_ecrites(*old(ecrivain)).last().1.len() + donnees@.len() < 0xFFFF_FFFF,
    ensures
        r is Ok,
        parties_ecrites(*final(ecrivain)) == parties_ecrites(*old(ecrivain)).update(
            parties_ecrites(*old(ecrivain)).len() - 1,
            (
                parties_ecrites(*old(ecrivain)).last().0,
                parties_ecrites(*old(ecrivain)).last().1 + donnees@,
            ),
        ),
{
    match std::io::Write::write_all(&mut ecrivain.interne, donnees.as_slice()) {
        Ok(()) => Ok(()),
        Err(_) => Err(Erreur::EntreeSortie),
    }
}

/// Relies on zip's ZipWriter::finish: closes the central directory and
/// hands back the archive bytes, a function of the written parts alone.
/// Over an in-memory buffer, entries below the large-size threshold seal
/// with no failure path left in the source.
#[verifier::external_body]
fn fin_zip(ecrivain: EcrivainDocx) -> (r: Result<Vec<u8>, Erreur>)
    requires
        forall|i: int|
            0 <= i < parties_ecrites(ecrivain).len() ==> (#[trigger] parties_ecrites(
                ecrivain,
            )[i]).1.len() < 0xFFFF_FFFF,
    ensures
        r is Ok,
        r matches Ok(b) ==> b@ == archive_de(parties_ecrites(ecrivain)),
{
    match ecrivain.interne.finish() {
        Ok(curseur) => Ok(curseur.into_inner()),
        Err(_) => Err(Erreur::EntreeSortie),
    }
}

/// Un evenement de balisage, reduit a ce que l'aplatissement lit.
pub enum Evenement {
    Debut(Vec<u8>),
    Fin(Vec<u8>),
    Texte(Vec<u8>),
    Termine,
    Autre,
}

#[verifier::external_type_specification]
#[verifier::external_body]
#[verifier::reject_recursive_types(R)]
pub struct ExLecteurXml<R>(quick_xml::Reader<R>);

/// Les evenements que la lecture d'un balisage rend, avant sa fin ou sa
/// premiere faute : ils ne dependent que des octets donnes.
pub uninterp spec fn evenements_de(xml: Seq<u8>) -> Seq<Evenement>;

/// La lecture de ce balisage s'arrete-t-elle sur une faute plutot que sur
/// la fin du document ?
pub uninterp spec fn balisage_errone(xml: Seq<u8>) -> bool;

/// Les evenements qu'un lecteur n'a pas encore rendus.
pub uninterp spec fn evenements_restants(lecteur: quick_xml::Reader<&[u8]>) -> Seq<Evenement>;

/// Le lecteur finira-t-il sur une faute ?
pub uninterp spec fn lecteur_fautif(lecteur: quick_xml::Reader<&[u8]>) -> bool;

/// Les octets forment-ils un texte UTF-8 entier ? Fonction des octets
/// seuls.
pub uninterp spec fn octets_utf8(octets: Seq<u8>) -> bool;

/// Relies on quick_xml's Reader::from_str and std's str::from_utf8: a
/// markup reader over the given text, refused exactly when the bytes are
/// not UTF-8. The fresh reader has the whole event stream of the bytes
/// ahead of it; every event yielded consumes at least one input byte, so
/// the stream is no longer than the input.
#[verifier::external_body]
fn lecteur_xml(xml: &Vec<u8>) -> (r: Result<quick_xml::Reader<&[u8]>, Erreur>)
    ensures
        (r is Ok) <==> octets_utf8(xml@),
        r matches Ok(l) ==> evenements_restants(l) == evenements_de(xml@) && lecteur_fautif(l)
            == balisage_errone(xml@) && evenements_de(xml@).len() <= xml@.len(),
        r is Err ==> r->Err_0 == Erreur::Chargement,
{
    match std::str::from_utf8(xml.as_slice()) {
        Ok(texte) => Ok(quick_xml::Reader::from_str(texte)),
        Err(_) => Err(Erreur::Chargement),
    }
}

/// Relies on quick_xml's Reader::read_event: the next markup event,
/// reduced variant by variant to the library's own event type. The reader
/// yields its remaining events in order, then the end of the document, or
/// one fault.
#[verifier::external_body]
fn evenement_suivant(lecteur: &mut quick_xml::Reader<&[u8]>) -> (r: Result<Evenement, Erreur>)
    ensures
        evenements_restants(*old(lecteur)).len() > 0 ==> ({
            &&& r matches Ok(e)
            &&& e == evenements_restants(*old(lecteur))[0]
            &&& !(e is Termine)
            &&& evenements_restants(*final(lecteur)) == evenements_restants(
                *old(lecteur),
            ).drop_first()
            &&& lecteur_fautif(*final(lecteur)) == lecteur_fautif(*old(lecteur))
        }),
        (evenements_restants(*old(lecteur)).len() == 0 && !lecteur_fautif(*old(lecteur))) ==> ({
            &&& r matches Ok(e)
            &&& e is Termine
            &&& evenements_restants(*final(lecteur)).len() == 0
            &&& !lecteur_fautif(*final(lecteur))
        }),
        (evenements_restants(*old(lecteur)).len() == 0 && lecteur_fautif(*old(lecteur))) ==> (r
            matches Err(er) && er == Erreur::Chargement),
{
    match lecteur.read_event() {
        Ok(quick_xml::events::Event::Start(e)) => Ok(
            Evenement::Debut(e.name().into_inner().as_bytes().to_vec()),
        ),
        Ok(quick_xml::events::Event::End(e)) => Ok(
            Evenement::Fin(e.name().into_inner().as_bytes().to_vec()),
        ),
        Ok(quick_xml::events::Event::Text(e)) => Ok(
            Evenement::Texte(e.into_inner().as_bytes().to_vec()),
        ),
        Ok(quick_xml::events::Event::Eof) => Ok(Evenement::Termine),
        Ok(_) => Ok(Evenement::Autre),
        Err(_) => Err(Erreur::Chargement),
    }
}

/// Tous les evenements d'un balisage, dans l'ordre. Un balisage fautif ou
/// illisible en UTF-8 est rejete comme illisible ; tout autre se collecte
/// en entier.
#[verifier::loop_isolation(false)]
fn collecter_evenements(xml: &Vec<u8>) -> (r: Result<Vec<Evenement>, Erreur>)
    ensures
        (r is Ok) <==> octets_utf8(xml@) && !balisage_errone(xml@),
        r matches Ok(v) ==> v@ == evenements_de(xml@),
        r is Err ==> r->Err_0 == Erreur::Chargement,
{
    let mut lecteur = match lecteur_xml(xml) {
        Ok(l) => l,
        Err(e) => {
            return Err(e);
        },
    };
    let mut evenements: Vec<Evenement> = Vec::new();
    // chaque evenement hors fin consomme du balisage : la longueur de
    // l'entree borne le nombre de tours, la fin se lisant apres la boucle.
    let mut carburant: usize = xml.len();
    proof {
        assert(evenements_de(xml@).skip(0) =~= evenements_de(xml@));
    }
    while carburant > 0
        invariant
            octets_utf8(xml@),
            evenements@ + evenements_restants(lecteur) == evenements_de(xml@),
            lecteur_fautif(lecteur) == balisage_errone(xml@),
            carburant as int >= evenements_restants(lecteur).len(),
        decreases carburant,
    {
        let ghost restants0 = evenements_restants(lecteur);
        let ghost fautif0 = lecteur_fautif(lecteur);
        match evenement_suivant(&mut lecteur) {
            Ok(Evenement::Termine) => {
                proof {
                    if restants0.len() > 0 {
                        assert(restants0[0] is Termine);
                        assert(false);
                    }
                    assert(evenements@ =~= evenements_de(xml@));
                }
                return Ok(evenements);
            },
            Ok(e) => {
                proof {
                    if restants0.len() == 0 {
                        assert(false);
                    }
                    assert(evenements@.push(restants0[0]) + restants0.drop_first()
                        =~= evenements@ + restants0);
                }
                evenements.push(e);
            },
            Err(e) => {
                proof {
                    assert(restants0.len() == 0 && fautif0);
                }
                return Err(e);
            },
        }
        carburant = carburant - 1;
    }
    // le carburant epuise, il ne reste que la fin du document ou la faute.
    let ghost restants1 = evenements_restants(lecteur);
    let ghost fautif1 = lecteur_fautif(lecteur);
    match evenement_suivant(&mut lecteur) {
        Ok(Evenement::Termine) => {
            proof {
                assert(evenements@ =~= evenements_de(xml@));
            }
            Ok(evenements)
        },
        Ok(_) => {
            proof {
                assert(restants1.len() == 0);
                assert(false);
            }
            Err(Erreur::Chargement)
        },
        Err(e) => {
            proof {
                assert(fautif1);
            }
            Err(e)
        },
    }
}

/// Une balise de paragraphe ou de titre, qui force un saut de ligne.
pub open spec fn est_paragraphe(nom: Seq<u8>) -> bool {
    nom == octets_ascii("w:p"@) || nom == octets_ascii("text:p"@) || nom == octets_ascii(
        "text:h"@,
    )
}

/// Une liste de noms contient-elle ce nom ?
pub open spec fn parmi(balises: Seq<Seq<u8>>, nom: Seq<u8>) -> bool {
    exists|i: int| 0 <= i < balises.len() && (#[trigger] balises[i]) == nom
}

/// L'etat de l'aplatissement : le texte accumule, la presence dans une
/// balise de texte, la profondeur de paragraphes.
pub open spec fn etat_texte(evts: Seq<Evenement>, balises: Seq<Seq<u8>>) -> (Seq<u8>, bool, int)
    decreases evts.len(),
{
    if evts.len() == 0 {
        (Seq::empty(), false, 0)
    } else {
        let avant = etat_texte(evts.drop_last(), balises);
        pas_texte(avant, evts.last(), balises)
    }
}

/// Un pas de l'aplatissement : les balises designees ouvrent et ferment
/// l'accumulation, les paragraphes et titres forcent des sauts de ligne,
/// le texte s'accumule dedans.
pub open spec fn pas_texte(
    avant: (Seq<u8>, bool, int),
    e: Evenement,
    balises: Seq<Seq<u8>>,
) -> (Seq<u8>, bool, int) {
    match e {
        Evenement::Debut(nom) => {
            let dans = if parmi(balises, nom@) {
                true
            } else {
                avant.1
            };
            if est_paragraphe(nom@) {
                let texte = if avant.0.len() > 0 && avant.0.last() != 10 {
                    avant.0.push(10)
                } else {
                    avant.0
                };
                (texte, dans, avant.2 + 1)
            } else {
                (avant.0, dans, avant.2)
            }
        },
        Evenement::Fin(nom) => {
            let dans = if parmi(balises, nom@) {
                false
            } else {
                avant.1
            };
            if est_paragraphe(nom@) {
                let texte = if avant.0.len() == 0 || avant.0.last() != 10 {
                    avant.0.push(10)
                } else {
                    avant.0
                };
                let prof = if avant.2 > 0 {
                    avant.2 - 1
                } else {
                    0
                };
                (texte, dans, prof)
            } else {
                (avant.0, dans, avant.2)
            }
        },
        Evenement::Texte(t) => {
            if avant.1 || avant.2 > 0 {
                (avant.0 + t@, avant.1, avant.2)
            } else {
                avant
            }
        },
        _ => avant,
    }
}

/// Les blancs ASCII otes des deux bouts.
pub open spec fn rogne(s: Seq<u8>) -> Seq<u8>
    decreases s.len(),
{
    if s.len() == 0 {
        s
    } else if s[0] == 32 || s[0] == 9 || s[0] == 10 || s[0] == 13 {
        rogne(s.drop_first())
    } else if s.last() == 32 || s.last() == 9 || s.last() == 10 || s.last() == 13 {
        rogne(s.drop_last())
    } else {
        s
    }
}

/// Le texte plat d'une suite d'evenements de balisage, blancs des bouts
/// otes.
pub open spec fn texte_du_balisage(evts: Seq<Evenement>, balises: Seq<Seq<u8>>) -> Seq<u8> {
    rogne(etat_texte(evts, balises).0)
}

/// Un nom est-il dans la liste ?
fn nom_parmi(balises: &Vec<Vec<u8>>, nom: &Vec<u8>) -> (r: bool)
    ensures
        r == parmi(balises@.map_values(|b: Vec<u8>| b@), nom@),
{
    let ghost vue = balises@.map_values(|b: Vec<u8>| b@);
    let mut i: usize = 0;
    while i < balises.len()
        invariant
            0 <= i <= balises@.len(),
            vue == balises@.map_values(|b: Vec<u8>| b@),
            forall|j: int| 0 <= j < i ==> (#[trigger] vue[j]) != nom@,
        decreases balises@.len() - i,
    {
        if octets_egaux(&balises[i], nom) {
            proof {
                assert(vue[i as int] == nom@);
            }
            return true;
        }
        i = i + 1;
    }
    false
}

/// Deux suites d'octets sont-elles egales ?
pub fn octets_egaux(a: &Vec<u8>, b: &Vec<u8>) -> (r: bool)
    ensures
        r == (a@ == b@),
{
    if a.len() != b.len() {
        proof {
            assert(a@.len() != b@.len());
        }
        return false;
    }
    let mut i: usize = 0;
    while i < a.len()
        invariant
            0 <= i <= a@.len() == b@.len(),
            forall|j: int| 0 <= j < i ==> (#[trigger] a@[j]) == b@[j],
        decreases a@.len() - i,
    {
        if a[i] != b[i] {
            return false;
        }
        i = i + 1;
    }
    proof {
        assert(a@ =~= b@);
    }
    true
}

/// Aplatis une suite d'evenements de balisage en texte : l'interieur des
/// balises designees et des paragraphes s'accumule, chaque paragraphe ou
/// titre est borde de sauts de ligne, le reste est jete. Ni tableaux, ni
/// images, ni styles.
#[verifier::loop_isolation(false)]
pub fn texte_depuis_evenements(evts: &Vec<Evenement>, balises: &Vec<Vec<u8>>) -> (r: Vec<u8>)
    ensures
        r@ == texte_du_balisage(evts@, balises@.map_values(|b: Vec<u8>| b@)),
{
    let ghost vbalises = balises@.map_values(|b: Vec<u8>| b@);
    let mut texte: Vec<u8> = Vec::new();
    let mut dans = false;
    let mut profondeur: usize = 0;
    proof {
        assert(evts@.take(0) =~= Seq::<Evenement>::empty());
        assert(etat_texte(Seq::<Evenement>::empty(), vbalises) == (
            Seq::<u8>::empty(),
            false,
            0int,
        ));
        assert(texte@ =~= Seq::<u8>::empty());
    }
    let mut i: usize = 0;
    while i < evts.len()
        invariant
            0 <= i <= evts@.len(),
            profondeur <= i,
            (texte@, dans, profondeur as int) == etat_texte(evts@.take(i as int), vbalises),
        decreases evts@.len() - i,
    {
        proof {
            assert(evts@.take(i as int + 1).drop_last() =~= evts@.take(i as int));
            assert(evts@.take(i as int + 1).last() == evts@[i as int]);
        }
        match &evts[i] {
            Evenement::Debut(nom) => {
                if nom_parmi(balises, nom) {
                    dans = true;
                }
                if est_para(nom) {
                    if texte.len() > 0 && texte[texte.len() - 1] != 10 {
                        texte.push(10);
                    }
                    profondeur = profondeur + 1;
                }
            },
            Evenement::Fin(nom) => {
                if nom_parmi(balises, nom) {
                    dans = false;
                }
                if est_para(nom) {
                    if texte.len() == 0 || texte[texte.len() - 1] != 10 {
                        texte.push(10);
                    }
                    if profondeur > 0 {
                        profondeur = profondeur - 1;
                    }
                }
            },
            Evenement::Texte(t) => {
                if dans || profondeur > 0 {
                    pousse_octets(&mut texte, t);
                }
            },
            _ => {},
        }
        i = i + 1;
    }
    proof {
        assert(evts@.take(evts@.len() as int) =~= evts@);
    }
    rogner(texte)
}

/// La balise force-t-elle un saut de ligne ?
fn est_para(nom: &Vec<u8>) -> (r: bool)
    ensures
        r == est_paragraphe(nom@),
{
    proof {
        reveal_strlit("w:p");
        reveal_strlit("text:p");
        reveal_strlit("text:h");
    }
    let a = crate::texte::octets_de("w:p");
    let b = crate::texte::octets_de("text:p");
    let c = crate::texte::octets_de("text:h");
    octets_egaux(nom, &a) || octets_egaux(nom, &b) || octets_egaux(nom, &c)
}

/// Ote les blancs ASCII des deux bouts.
#[verifier::loop_isolation(false)]
pub fn rogner(s: Vec<u8>) -> (r: Vec<u8>)
    ensures
        r@ == rogne(s@),
{
    let mut debut: usize = 0;
    let mut fin: usize = s.len();
    proof {
        assert(s@.subrange(0, s@.len() as int) =~= s@);
    }
    while debut < fin && (s[debut] == 32 || s[debut] == 9 || s[debut] == 10 || s[debut] == 13)
        invariant
            0 <= debut <= fin <= s@.len(),
            rogne(s@) == rogne(s@.subrange(debut as int, fin as int)),
        decreases fin - debut,
    {
        proof {
            assert(s@.subrange(debut as int, fin as int).drop_first() =~= s@.subrange(
                debut as int + 1,
                fin as int,
            ));
            assert(s@.subrange(debut as int, fin as int)[0] == s@[debut as int]);
        }
        debut = debut + 1;
    }
    while debut < fin && (s[fin - 1] == 32 || s[fin - 1] == 9 || s[fin - 1] == 10 || s[fin - 1]
        == 13)
        invariant
            0 <= debut <= fin <= s@.len(),
            rogne(s@) == rogne(s@.subrange(debut as int, fin as int)),
            debut < fin ==> !(s@[debut as int] == 32 || s@[debut as int] == 9 || s@[debut as int]
                == 10 || s@[debut as int] == 13),
        decreases fin - debut,
    {
        proof {
            assert(s@.subrange(debut as int, fin as int).drop_last() =~= s@.subrange(
                debut as int,
                fin as int - 1,
            ));
            assert(s@.subrange(debut as int, fin as int).last() == s@[fin - 1]);
            assert(s@.subrange(debut as int, fin as int)[0] == s@[debut as int]);
        }
        fin = fin - 1;
    }
    proof {
        let reste = s@.subrange(debut as int, fin as int);
        if reste.len() > 0 {
            assert(reste[0] == s@[debut as int]);
            assert(reste.last() == s@[fin - 1]);
        }
        assert(rogne(reste) =~= reste);
    }
    crate::texte::copie_tranche(&s, debut, fin)
}

} // verus!

verus! {

/// Les balises de texte d'un document de traitement de texte.
pub open spec fn balises_docx() -> Seq<Seq<u8>> {
    seq![octets_ascii("w:t"@)]
}

/// Les balises de texte d'un document bureautique.
pub open spec fn balises_odt() -> Seq<Seq<u8>> {
    seq![octets_ascii("text:p"@), octets_ascii("text:h"@), octets_ascii("text:span"@)]
}

/// Le texte plat d'un conteneur de traitement de texte : l'archive est
/// ouverte, la partie `word/document.xml` lue, son balisage aplati.
pub fn lire_docx_texte(donnees: &Vec<u8>) -> (r: Result<Vec<u8>, Erreur>)
    ensures
        (r is Ok) <==> conteneur_lisible(FormatEntree::Docx, donnees@),
        match r {
            Ok(t) => {
                &&& partie_nommee(donnees@, "word/document.xml"@) matches Some(xml)
                &&& t@ == texte_du_balisage(evenements_de(xml), balises_docx())
                &&& !balisage_errone(xml)
            },
            Err(e) => e == Erreur::Chargement,
        },
{
    proof {
        reveal_strlit("w:t");
    }
    let mut archive = match ouvrir_archive(donnees) {
        Ok(a) => a,
        Err(e) => {
            return Err(e);
        },
    };
    let xml = match partie_archive(&mut archive, "word/document.xml") {
        Ok(x) => x,
        Err(e) => {
            return Err(e);
        },
    };
    let evts = match collecter_evenements(&xml) {
        Ok(v) => v,
        Err(e) => {
            return Err(e);
        },
    };
    let mut balises: Vec<Vec<u8>> = Vec::new();
    balises.push(crate::texte::octets_de("w:t"));
    let t = texte_depuis_evenements(&evts, &balises);
    proof {
        assert(balises@.map_values(|b: Vec<u8>| b@) =~= balises_docx());
    }
    Ok(t)
}

/// Le texte plat d'un conteneur bureautique : l'archive est ouverte, la
/// partie `content.xml` lue, son balisage aplati.
pub fn lire_odt_texte(donnees: &Vec<u8>) -> (r: Result<Vec<u8>, Erreur>)
    ensures
        (r is Ok) <==> conteneur_lisible(FormatEntree::Odt, donnees@),
        match r {
            Ok(t) => {
                &&& partie_nommee(donnees@, "content.xml"@) matches Some(xml)
                &&& t@ == texte_du_balisage(evenements_de(xml), balises_odt())
                &&& !balisage_errone(xml)
            },
            Err(e) => e == Erreur::Chargement,
        },
{
    proof {
        reveal_strlit("text:p");
        reveal_strlit("text:h");
        reveal_strlit("text:span");
    }
    let mut archive = match ouvrir_archive(donnees) {
        Ok(a) => a,
        Err(e) => {
            return Err(e);
        },
    };
    let xml = match partie_archive(&mut archive, "content.xml") {
        Ok(x) => x,
        Err(e) => {
            return Err(e);
        },
    };
    let evts = match collecter_evenements(&xml) {
        Ok(v) => v,
        Err(e) => {
            return Err(e);
        },
    };
    let mut balises: Vec<Vec<u8>> = Vec::new();
    balises.push(crate::texte::octets_de("text:p"));
    balises.push(crate::texte::octets_de("text:h"));
    balises.push(crate::texte::octets_de("text:span"));
    let t = texte_depuis_evenements(&evts, &balises);
    proof {
        assert(balises@.map_values(|b: Vec<u8>| b@) =~= balises_odt());
    }
    Ok(t)
}

/// L'echappement XML minimal : `&`, `<`, `>`.
pub open spec fn echappe_xml(s: Seq<u8>) -> Seq<u8> {
    let s1 = remplace_seq(s, octets_ascii("&"@), octets_ascii("&amp;"@));
    let s2 = remplace_seq(s1, octets_ascii("<"@), octets_ascii("&lt;"@));
    remplace_seq(s2, octets_ascii(">"@), octets_ascii("&gt;"@))
}

/// Le corps XML du paquet : un paragraphe par ligne du texte, echappee.
pub open spec fn corps_docx(texte: Seq<u8>) -> Seq<u8> {
    octets_ascii(
        "<?xml version=\"1.0\" encoding=\"UTF-8\" standalone=\"yes\"?>\n<w:document xmlns:w=\"http://schemas.openxmlformats.org/wordprocessingml/2006/main\">\n  <w:body>"@,
    ) + paragraphes_docx(crate::texte::lignes_de(texte)) + octets_ascii(
        "\n  </w:body>\n</w:document>"@,
    )
}

pub open spec fn paragraphes_docx(lignes: Seq<Seq<u8>>) -> Seq<u8>
    decreases lignes.len(),
{
    if lignes.len() == 0 {
        Seq::empty()
    } else {
        octets_ascii("\n    <w:p><w:r><w:t xml:space=\"preserve\">"@) + echappe_xml(lignes[0])
            + octets_ascii("</w:t></w:r></w:p>"@) + paragraphes_docx(lignes.drop_first())
    }
}

/// Construit le corps XML du paquet de traitement de texte.
#[verifier::loop_isolation(false)]
pub fn corps_document_docx(texte: &Vec<u8>) -> (r: Vec<u8>)
    ensures
        r@ == corps_docx(texte@),
{
    proof {
        reveal_strlit(
            "<?xml version=\"1.0\" encoding=\"UTF-8\" standalone=\"yes\"?>\n<w:document xmlns:w=\"http://schemas.openxmlformats.org/wordprocessingml/2006/main\">\n  <w:body>",
        );
        reveal_strlit("\n  </w:body>\n</w:document>");
        reveal_strlit("\n    <w:p><w:r><w:t xml:space=\"preserve\">");
        reveal_strlit("</w:t></w:r></w:p>");
        reveal_strlit("&");
        reveal_strlit("<");
        reveal_strlit(">");
        reveal_strlit("&amp;");
        reveal_strlit("&lt;");
        reveal_strlit("&gt;");
    }
    let lignes = crate::texte::lignes_exec(texte);
    let ghost vlignes = lignes@.map_values(|v: Vec<u8>| v@);
    let mut sortie: Vec<u8> = Vec::new();
    pousse_litteral(
        &mut sortie,
        "<?xml version=\"1.0\" encoding=\"UTF-8\" standalone=\"yes\"?>\n<w:document xmlns:w=\"http://schemas.openxmlformats.org/wordprocessingml/2006/main\">\n  <w:body>",
    );
    let ghost entete = sortie@;
    proof {
        assert(vlignes.skip(0) =~= vlignes);
        assert(entete + Seq::<u8>::empty() =~= entete);
    }
    let mut i: usize = 0;
    while i < lignes.len()
        invariant
            0 <= i <= vlignes.len(),
            vlignes == lignes@.map_values(|v: Vec<u8>| v@),
            entete + paragraphes_docx(vlignes) == sortie@ + paragraphes_docx(
                vlignes.skip(i as int),
            ),
        decreases vlignes.len() - i,
    {
        proof {
            assert(vlignes.skip(i as int)[0] == vlignes[i as int]);
            assert(vlignes.skip(i as int).drop_first() =~= vlignes.skip(i as int + 1));
        }
        pousse_litteral(&mut sortie, "\n    <w:p><w:r><w:t xml:space=\"preserve\">");
        let e1 = remplacer(&lignes[i], crate::texte::octets_de("&").as_slice(), crate::texte::octets_de("&amp;").as_slice());
        let e2 = remplacer(&e1, crate::texte::octets_de("<").as_slice(), crate::texte::octets_de("&lt;").as_slice());
        let e3 = remplacer(&e2, crate::texte::octets_de(">").as_slice(), crate::texte::octets_de("&gt;").as_slice());
        pousse_octets(&mut sortie, &e3);
        pousse_litteral(&mut sortie, "</w:t></w:r></w:p>");
        i = i + 1;
    }
    proof {
        assert(vlignes.skip(vlignes.len() as int).len() == 0);
        assert(paragraphes_docx(vlignes.skip(vlignes.len() as int)) =~= Seq::<u8>::empty());
        assert(sortie@ =~= entete + paragraphes_docx(vlignes));
    }
    pousse_litteral(&mut sortie, "\n  </w:body>\n</w:document>");
    proof {
        assert(sortie@ =~= corps_docx(texte@));
    }
    sortie
}

/// Les quatre parties du paquet minimal : le manifeste des types, les
/// relations du paquet et du corps, et le corps lui-meme.
pub open spec fn parties_docx(texte: Seq<u8>) -> Seq<(Seq<char>, Seq<u8>)> {
    seq![
        ("[Content_Types].xml"@, octets_ascii("<?xml version=\"1.0\" encoding=\"UTF-8\" standalone=\"yes\"?>\n<Types xmlns=\"http://schemas.openxmlformats.org/package/2006/content-types\">\n  <Default Extension=\"rels\" ContentType=\"application/vnd.openxmlformats-package.relationships+xml\"/>\n  <Default Extension=\"xml\" ContentType=\"application/xml\"/>\n  <Override PartName=\"/word/document.xml\" ContentType=\"application/vnd.openxmlformats-officedocument.wordprocessingml.document.main+xml\"/>\n</Types>"@)),
        ("_rels/.rels"@, octets_ascii("<?xml version=\"1.0\" encoding=\"UTF-8\" standalone=\"yes\"?>\n<Relationships xmlns=\"http://schemas.openxmlformats.org/package/2006/relationships\">\n  <Relationship Id=\"rId1\" Type=\"http://schemas.openxmlformats.org/officeDocument/2006/relationships/officeDocument\" Target=\"word/document.xml\"/>\n</Relationships>"@)),
        ("word/_rels/document.xml.rels"@, octets_ascii("<?xml version=\"1.0\" encoding=\"UTF-8\" standalone=\"yes\"?>\n<Relationships xmlns=\"http://schemas.openxmlformats.org/package/2006/relationships\">\n</Relationships>"@)),
        ("word/document.xml"@, corps_docx(texte)),
    ]
}

/// Ecrit un paquet de traitement de texte minimal : exactement le
/// manifeste des types, les relations du paquet, et un corps portant une
/// ligne par paragraphe, echappee ; sans style ni tableau ni image. Cible
/// de conversion avec perte, pas un editeur.
pub fn ecrire_docx_simple(texte: &Vec<u8>) -> (r: Result<Vec<u8>, Erreur>)
    ensures
        r matches Ok(z) ==> z@ == archive_de(parties_docx(texte@)),
        (r is Ok) <==> corps_docx(texte@).len() < 0xFFFF_FFFF,
        r is Err ==> r->Err_0 == Erreur::EntreeSortie,
{
    proof {
        reveal_strlit("[Content_Types].xml");
        reveal_strlit("_rels/.rels");
        reveal_strlit("word/_rels/document.xml.rels");
        reveal_strlit("word/document.xml");
        assert("[Content_Types].xml"@.len() == 19);
        assert("_rels/.rels"@.len() == 11);
        assert("word/_rels/document.xml.rels"@.len() == 28);
        assert("word/document.xml"@.len() == 17);
    }
    let types = texte_fixe_types();
    let rels = texte_fixe_rels();
    let rels_doc = texte_fixe_rels_document();
    let corps = corps_document_docx(texte);
    proof {
        reveal_strlit(
            "<?xml version=\"1.0\" encoding=\"UTF-8\" standalone=\"yes\"?>\n<Types xmlns=\"http://schemas.openxmlformats.org/package/2006/content-types\">\n  <Default Extension=\"rels\" ContentType=\"application/vnd.openxmlformats-package.relationships+xml\"/>\n  <Default Extension=\"xml\" ContentType=\"application/xml\"/>\n  <Override PartName=\"/word/document.xml\" ContentType=\"application/vnd.openxmlformats-officedocument.wordprocessingml.document.main+xml\"/>\n</Types>",
        );
        reveal_strlit(
            "<?xml version=\"1.0\" encoding=\"UTF-8\" standalone=\"yes\"?>\n<Relationships xmlns=\"http://schemas.openxmlformats.org/package/2006/relationships\">\n  <Relationship Id=\"rId1\" Type=\"http://schemas.openxmlformats.org/officeDocument/2006/relationships/officeDocument\" Target=\"word/document.xml\"/>\n</Relationships>",
        );
        reveal_strlit(
            "<?xml version=\"1.0\" encoding=\"UTF-8\" standalone=\"yes\"?>\n<Relationships xmlns=\"http://schemas.openxmlformats.org/package/2006/relationships\">\n</Relationships>",
        );
        assert(types@.len() < 0xFFFF_FFFF);
        assert(rels@.len() < 0xFFFF_FFFF);
        assert(rels_doc@.len() < 0xFFFF_FFFF);
    }
    // seul un corps au-dela du seuil des entrees larges de l'archiveur
    // ferait echouer l'ecriture : il est refuse d'avance.
    if corps.len() >= 0xFFFF_FFFF {
        return Err(Erreur::EntreeSortie);
    }
    let mut z = ecrivain_zip();
    let _ = entree_zip(&mut z, "[Content_Types].xml");
    let _ = donnees_zip(&mut z, &types);
    proof {
        assert(parties_ecrites(z).len() == 1);
        assert(parties_ecrites(z)[0].0 == "[Content_Types].xml"@);
    }
    let _ = entree_zip(&mut z, "_rels/.rels");
    let _ = donnees_zip(&mut z, &rels);
    proof {
        assert(parties_ecrites(z).len() == 2);
        assert(parties_ecrites(z)[0].0 == "[Content_Types].xml"@);
        assert(parties_ecrites(z)[1].0 == "_rels/.rels"@);
    }
    let _ = entree_zip(&mut z, "word/_rels/document.xml.rels");
    let _ = donnees_zip(&mut z, &rels_doc);
    proof {
        assert(parties_ecrites(z).len() == 3);
        assert(parties_ecrites(z)[0].0 == "[Content_Types].xml"@);
        assert(parties_ecrites(z)[1].0 == "_rels/.rels"@);
        assert(parties_ecrites(z)[2].0 == "word/_rels/document.xml.rels"@);
    }
    let _ = entree_zip(&mut z, "word/document.xml");
    let _ = donnees_zip(&mut z, &corps);
    proof {
        assert forall|i: int|
            0 <= i < parties_ecrites(z).len() implies #[trigger] parties_ecrites(z)[i]
            == parties_docx(texte@)[i] by {
            assert(Seq::<u8>::empty() + types@ =~= types@);
            assert(Seq::<u8>::empty() + rels@ =~= rels@);
            assert(Seq::<u8>::empty() + rels_doc@ =~= rels_doc@);
            assert(Seq::<u8>::empty() + corps@ =~= corps@);
        }
        assert(parties_ecrites(z) =~= parties_docx(texte@));
    }
    fin_zip(z)
}

/// Le manifeste des types de contenu du paquet.
fn texte_fixe_types() -> (r: Vec<u8>)
    ensures
        r@ == octets_ascii(
            "<?xml version=\"1.0\" encoding=\"UTF-8\" standalone=\"yes\"?>\n<Types xmlns=\"http://schemas.openxmlformats.org/package/2006/content-types\">\n  <Default Extension=\"rels\" ContentType=\"application/vnd.openxmlformats-package.relationships+xml\"/>\n  <Default Extension=\"xml\" ContentType=\"application/xml\"/>\n  <Override PartName=\"/word/document.xml\" ContentType=\"application/vnd.openxmlformats-officedocument.wordprocessingml.document.main+xml\"/>\n</Types>"@,
        ),
{
    proof {
        reveal_strlit(
            "<?xml version=\"1.0\" encoding=\"UTF-8\" standalone=\"yes\"?>\n<Types xmlns=\"http://schemas.openxmlformats.org/package/2006/content-types\">\n  <Default Extension=\"rels\" ContentType=\"application/vnd.openxmlformats-package.relationships+xml\"/>\n  <Default Extension=\"xml\" ContentType=\"application/xml\"/>\n  <Override PartName=\"/word/document.xml\" ContentType=\"application/vnd.openxmlformats-officedocument.wordprocessingml.document.main+xml\"/>\n</Types>",
        );
    }
    crate::texte::octets_de(
        "<?xml version=\"1.0\" encoding=\"UTF-8\" standalone=\"yes\"?>\n<Types xmlns=\"http://schemas.openxmlformats.org/package/2006/content-types\">\n  <Default Extension=\"rels\" ContentType=\"application/vnd.openxmlformats-package.relationships+xml\"/>\n  <Default Extension=\"xml\" ContentType=\"application/xml\"/>\n  <Override PartName=\"/word/document.xml\" ContentType=\"application/vnd.openxmlformats-officedocument.wordprocessingml.document.main+xml\"/>\n</Types>",
    )
}

/// Les relations du paquet.
fn texte_fixe_rels() -> (r: Vec<u8>)
    ensures
        r@ == octets_ascii(
            "<?xml version=\"1.0\" encoding=\"UTF-8\" standalone=\"yes\"?>\n<Relationships xmlns=\"http://schemas.openxmlformats.org/package/2006/relationships\">\n  <Relationship Id=\"rId1\" Type=\"http://schemas.openxmlformats.org/officeDocument/2006/relationships/officeDocument\" Target=\"word/document.xml\"/>\n</Relationships>"@,
        ),
{
    proof {
        reveal_strlit(
            "<?xml version=\"1.0\" encoding=\"UTF-8\" standalone=\"yes\"?>\n<Relationships xmlns=\"http://schemas.openxmlformats.org/package/2006/relationships\">\n  <Relationship Id=\"rId1\" Type=\"http://schemas.openxmlformats.org/officeDocument/2006/relationships/officeDocument\" Target=\"word/document.xml\"/>\n</Relationships>",
        );
    }
    crate::texte::octets_de(
        "<?xml version=\"1.0\" encoding=\"UTF-8\" standalone=\"yes\"?>\n<Relationships xmlns=\"http://schemas.openxmlformats.org/package/2006/relationships\">\n  <Relationship Id=\"rId1\" Type=\"http://schemas.openxmlformats.org/officeDocument/2006/relationships/officeDocument\" Target=\"word/document.xml\"/>\n</Relationships>",
    )
}

/// Les relations du corps.
fn texte_fixe_rels_document() -> (r: Vec<u8>)
    ensures
        r@ == octets_ascii(
            "<?xml version=\"1.0\" encoding=\"UTF-8\" standalone=\"yes\"?>\n<Relationships xmlns=\"http://schemas.openxmlformats.org/package/2006/relationships\">\n</Relationships>"@,
        ),
{
    proof {
        reveal_strlit(
            "<?xml version=\"1.0\" encoding=\"UTF-8\" standalone=\"yes\"?>\n<Relationships xmlns=\"http://schemas.openxmlformats.org/package/2006/relationships\">\n</Relationships>",
        );
    }
    crate::texte::octets_de(
        "<?xml version=\"1.0\" encoding=\"UTF-8\" standalone=\"yes\"?>\n<Relationships xmlns=\"http://schemas.openxmlformats.org/package/2006/relationships\">\n</Relationships>",
    )
}

} // verus!

verus! {

/// Ce qu'une conversion rend a l'appelant : du texte a ecrire tel quel,
/// un document a serialiser, un paquet zip pret, ou l'ordre de copier les
/// octets d'origine parce qu'aucun chemin de conversion n'existe.
pub enum Sortie {
    Texte(Vec<u8>),
    Pdf(Document),
    Paquet(Vec<u8>),
    CopieDirecte,
}

/// La page HTML complete que rend un Markdown.
pub open spec fn page_markdown(d: Seq<u8>) -> Seq<u8> {
    octets_ascii("<!DOCTYPE html>\n<html><head><meta charset=\"utf-8\"></head><body>\n"@)
        + html_de_markdown(d) + octets_ascii("\n</body></html>"@)
}

/// Le texte plat qu'un format d'entree textuel livre.
pub open spec fn texte_plat_de(fmt: FormatEntree, d: Seq<u8>) -> Seq<u8> {
    match fmt {
        FormatEntree::Md => texte_de_html(html_de_markdown(d)),
        FormatEntree::Html => texte_de_html(d),
        _ => d,
    }
}

/// Le format d'entree se lit-il sans conteneur ?
pub open spec fn entree_textuelle(fmt: FormatEntree) -> bool {
    !(fmt is Docx || fmt is Dotx || fmt is Odt)
}

/// Le format d'entree a-t-il un chemin vers la cible document ? Les
/// entrees deja paginees ou sans lecteur de texte (pdf, tex, rst, typst)
/// n'en ont pas : elles retombent sur la copie directe.
pub open spec fn entree_vers_pdf(fmt: FormatEntree) -> bool {
    !(fmt is Pdf || fmt is Tex || fmt is Rst || fmt is Typst)
}

/// La partie de balisage qu'un conteneur donne a lire.
pub open spec fn partie_conteneur(fe: FormatEntree, donnees: Seq<u8>) -> Option<Seq<u8>> {
    if fe is Odt {
        partie_nommee(donnees, "content.xml"@)
    } else {
        partie_nommee(donnees, "word/document.xml"@)
    }
}

/// Le texte plat qu'un conteneur livre : sa partie de balisage aplatie.
pub open spec fn texte_conteneur(fe: FormatEntree, donnees: Seq<u8>) -> Seq<u8> {
    if fe is Odt {
        texte_du_balisage(evenements_de(partie_conteneur(fe, donnees)->Some_0), balises_odt())
    } else {
        texte_du_balisage(evenements_de(partie_conteneur(fe, donnees)->Some_0), balises_docx())
    }
}

/// Le conteneur se laisse-t-il lire de bout en bout : l'archive s'ouvre,
/// la partie de balisage s'y trouve, se decode en UTF-8 et se parcourt
/// sans faute.
pub open spec fn conteneur_lisible(fe: FormatEntree, donnees: Seq<u8>) -> bool {
    &&& archive_lisible(donnees)
    &&& partie_conteneur(fe, donnees) is Some
    &&& octets_utf8(partie_conteneur(fe, donnees)->Some_0)
    &&& !balisage_errone(partie_conteneur(fe, donnees)->Some_0)
}

/// Le texte plat que la cible paquet recoit, selon le format d'entree.
pub open spec fn texte_pour_paquet(fe: Option<FormatEntree>, donnees: Seq<u8>) -> Seq<u8> {
    match fe {
        Some(f) => if entree_textuelle(f) {
            texte_plat_de(f, donnees)
        } else {
            texte_conteneur(f, donnees)
        },
        None => donnees,
    }
}

/// Le contrat de la table de conversion : pour chaque paire de formats,
/// ce que le resultat doit etre. Les delegues historiques promettent le
/// meme contrat que la table elle-meme.
pub open spec fn conversion_conforme(
    fmt_entree: Option<FormatEntree>,
    fmt_sortie: Option<FormatSortie>,
    donnees: Seq<u8>,
    r: Result<Sortie, Erreur>,
) -> bool {
        match (fmt_entree, fmt_sortie) {
            (Some(fe), Some(FormatSortie::Pdf)) => {
                &&& (!entree_vers_pdf(fe) ==> (r matches Ok(s) && s is CopieDirecte))
                &&& (entree_vers_pdf(fe) && entree_textuelle(fe) ==> match r {
                    Ok(s) => s matches Sortie::Pdf(d) && crate::modele::bien_forme(d)
                        && d.chiffrement is None && crate::modele::nombre_pages(d)
                        == nb_pages_attendu(texte_plat_de(fe, donnees)),
                    Err(e) => e == Erreur::Structurelle && nb_pages_attendu(
                        texte_plat_de(fe, donnees),
                    ) > 1_000_000_000,
                })
                &&& (entree_vers_pdf(fe) && !entree_textuelle(fe) ==> match r {
                    Ok(s) => conteneur_lisible(fe, donnees) && (s matches Sortie::Pdf(d)
                        && crate::modele::bien_forme(d) && d.chiffrement is None
                        && crate::modele::nombre_pages(d) == nb_pages_attendu(
                            texte_conteneur(fe, donnees),
                        )),
                    Err(e) => {
                        ||| (e == Erreur::Structurelle && conteneur_lisible(fe, donnees)
                            && nb_pages_attendu(texte_conteneur(fe, donnees)) > 1_000_000_000)
                        ||| (e == Erreur::Chargement && !conteneur_lisible(fe, donnees))
                    },
                })
            },
            (Some(FormatEntree::Md), Some(FormatSortie::Html)) => r matches Ok(s) && s
                matches Sortie::Texte(t) && t@ == page_markdown(donnees),
            (Some(FormatEntree::Txt), Some(FormatSortie::Html))
            | (Some(FormatEntree::Log), Some(FormatSortie::Html))
            | (Some(FormatEntree::Csv), Some(FormatSortie::Html))
            | (Some(FormatEntree::Json), Some(FormatSortie::Html))
            | (Some(FormatEntree::Yaml), Some(FormatSortie::Html)) => r matches Ok(s) && s
                matches Sortie::Texte(t) && t@ == crate::texte::page_html(donnees),
            (Some(FormatEntree::Docx), Some(FormatSortie::Html))
            | (Some(FormatEntree::Dotx), Some(FormatSortie::Html))
            | (Some(FormatEntree::Odt), Some(FormatSortie::Html)) => (match r {
                Ok(s) => conteneur_lisible(fmt_entree->Some_0, donnees) && (s
                    matches Sortie::Texte(t) && t@ == crate::texte::page_html(
                    texte_conteneur(fmt_entree->Some_0, donnees),
                )),
                Err(e) => e == Erreur::Chargement && !conteneur_lisible(
                    fmt_entree->Some_0,
                    donnees,
                ),
            }),
            (Some(FormatEntree::Html), Some(FormatSortie::Md)) => r matches Ok(s) && s
                matches Sortie::Texte(t) && t@ == markdown_de_html(donnees),
            (Some(FormatEntree::Docx), Some(FormatSortie::Md))
            | (Some(FormatEntree::Dotx), Some(FormatSortie::Md)) => (match r {
                Ok(s) => conteneur_lisible(fmt_entree->Some_0, donnees) && (s
                    matches Sortie::Texte(t) && t@ == texte_conteneur(
                    fmt_entree->Some_0,
                    donnees,
                )),
                Err(e) => e == Erreur::Chargement && !conteneur_lisible(
                    fmt_entree->Some_0,
                    donnees,
                ),
            }),
            (Some(FormatEntree::Html), Some(FormatSortie::Plain)) => r matches Ok(s) && s
                matches Sortie::Texte(t) && t@ == texte_de_html(donnees),
            (Some(FormatEntree::Md), Some(FormatSortie::Plain)) => r matches Ok(s) && s
                matches Sortie::Texte(t) && t@ == texte_de_html(html_de_markdown(donnees)),
            (Some(FormatEntree::Docx), Some(FormatSortie::Plain))
            | (Some(FormatEntree::Dotx), Some(FormatSortie::Plain))
            | (Some(FormatEntree::Odt), Some(FormatSortie::Plain)) => (match r {
                Ok(s) => conteneur_lisible(fmt_entree->Some_0, donnees) && (s
                    matches Sortie::Texte(t) && t@ == texte_conteneur(
                    fmt_entree->Some_0,
                    donnees,
                )),
                Err(e) => e == Erreur::Chargement && !conteneur_lisible(
                    fmt_entree->Some_0,
                    donnees,
                ),
            }),
            (_, Some(FormatSortie::Docx)) => (match r {
                Ok(s) => corps_docx(texte_pour_paquet(fmt_entree, donnees)).len() < 0xFFFF_FFFF
                    && (s matches Sortie::Paquet(z) && z@ == archive_de(
                    parties_docx(texte_pour_paquet(fmt_entree, donnees)),
                )),
                Err(e) => {
                    ||| (e == Erreur::EntreeSortie && corps_docx(
                        texte_pour_paquet(fmt_entree, donnees),
                    ).len() >= 0xFFFF_FFFF)
                    ||| (e == Erreur::Chargement && (fmt_entree matches Some(f)
                        && !entree_textuelle(f) && !conteneur_lisible(f, donnees)))
                },
            }),
            _ => r matches Ok(s) && s is CopieDirecte,
        }
}

/// Convertit un contenu du format d'entree au format de sortie. Les paires
/// sans chemin de conversion rendent l'ordre de copie directe : une
/// degradation assumee et observable, pas un echec silencieux. Seule une
/// pagination au-dela du milliard de pages ou un conteneur illisible fait
/// echouer la conversion.
#[verifier::rlimit(100)]
pub fn convertir(
    fmt_entree: Option<FormatEntree>,
    fmt_sortie: Option<FormatSortie>,
    donnees: &Vec<u8>,
) -> (r: Result<Sortie, Erreur>)
    ensures
        conversion_conforme(fmt_entree, fmt_sortie, donnees@, r),

{
    match (fmt_entree, fmt_sortie) {
        (Some(FormatEntree::Md), Some(FormatSortie::Pdf)) => {
            let html = md_vers_html(donnees);
            let texte = html_vers_texte(&html);
            match texte_vers_pdf(&texte) {
                Ok(d) => Ok(Sortie::Pdf(d)),
                Err(e) => Err(e),
            }
        },
        (Some(FormatEntree::Html), Some(FormatSortie::Pdf)) => {
            let texte = html_vers_texte(donnees);
            match texte_vers_pdf(&texte) {
                Ok(d) => Ok(Sortie::Pdf(d)),
                Err(e) => Err(e),
            }
        },
        (Some(FormatEntree::Docx), Some(FormatSortie::Pdf))
        | (Some(FormatEntree::Dotx), Some(FormatSortie::Pdf)) => {
            match lire_docx_texte(donnees) {
                Ok(texte) => match texte_vers_pdf(&texte) {
                    Ok(d) => Ok(Sortie::Pdf(d)),
                    Err(e) => Err(e),
                },
                Err(e) => Err(e),
            }
        },
        (Some(FormatEntree::Odt), Some(FormatSortie::Pdf)) => {
            match lire_odt_texte(donnees) {
                Ok(texte) => match texte_vers_pdf(&texte) {
                    Ok(d) => Ok(Sortie::Pdf(d)),
                    Err(e) => Err(e),
                },
                Err(e) => Err(e),
            }
        },
        (Some(FormatEntree::Txt), Some(FormatSortie::Pdf))
        | (Some(FormatEntree::Log), Some(FormatSortie::Pdf))
        | (Some(FormatEntree::Csv), Some(FormatSortie::Pdf))
        | (Some(FormatEntree::Json), Some(FormatSortie::Pdf))
        | (Some(FormatEntree::Yaml), Some(FormatSortie::Pdf)) => {
            match texte_vers_pdf(donnees) {
                Ok(d) => Ok(Sortie::Pdf(d)),
                Err(e) => Err(e),
            }
        },
        (Some(FormatEntree::Md), Some(FormatSortie::Html)) => {
            proof {
                reveal_strlit(
                    "<!DOCTYPE html>\n<html><head><meta charset=\"utf-8\"></head><body>\n",
                );
                reveal_strlit("\n</body></html>");
            }
            let html = md_vers_html(donnees);
            let mut page: Vec<u8> = Vec::new();
            pousse_litteral(
                &mut page,
                "<!DOCTYPE html>\n<html><head><meta charset=\"utf-8\"></head><body>\n",
            );
            pousse_octets(&mut page, &html);
            pousse_litteral(&mut page, "\n</body></html>");
            proof {
                assert(page@ =~= page_markdown(donnees@));
            }
            Ok(Sortie::Texte(page))
        },
        (Some(FormatEntree::Txt), Some(FormatSortie::Html))
        | (Some(FormatEntree::Log), Some(FormatSortie::Html))
        | (Some(FormatEntree::Csv), Some(FormatSortie::Html))
        | (Some(FormatEntree::Json), Some(FormatSortie::Html))
        | (Some(FormatEntree::Yaml), Some(FormatSortie::Html)) => {
            Ok(Sortie::Texte(texte_vers_html(donnees)))
        },
        (Some(FormatEntree::Docx), Some(FormatSortie::Html))
        | (Some(FormatEntree::Dotx), Some(FormatSortie::Html)) => {
            match lire_docx_texte(donnees) {
                Ok(texte) => Ok(Sortie::Texte(texte_vers_html(&texte))),
                Err(e) => Err(e),
            }
        },
        (Some(FormatEntree::Odt), Some(FormatSortie::Html)) => {
            match lire_odt_texte(donnees) {
                Ok(texte) => Ok(Sortie::Texte(texte_vers_html(&texte))),
                Err(e) => Err(e),
            }
        },
        (Some(FormatEntree::Html), Some(FormatSortie::Md)) => {
            Ok(Sortie::Texte(html_vers_md(donnees)))
        },
        (Some(FormatEntree::Docx), Some(FormatSortie::Md))
        | (Some(FormatEntree::Dotx), Some(FormatSortie::Md)) => {
            match lire_docx_texte(donnees) {
                Ok(texte) => Ok(Sortie::Texte(texte)),
                Err(e) => Err(e),
            }
        },
        (Some(FormatEntree::Html), Some(FormatSortie::Plain)) => {
            Ok(Sortie::Texte(html_vers_texte(donnees)))
        },
        (Some(FormatEntree::Md), Some(FormatSortie::Plain)) => {
            let html = md_vers_html(donnees);
            Ok(Sortie::Texte(html_vers_texte(&html)))
        },
        (Some(FormatEntree::Docx), Some(FormatSortie::Plain))
        | (Some(FormatEntree::Dotx), Some(FormatSortie::Plain)) => {
            match lire_docx_texte(donnees) {
                Ok(texte) => Ok(Sortie::Texte(texte)),
                Err(e) => Err(e),
            }
        },
        (Some(FormatEntree::Odt), Some(FormatSortie::Plain)) => {
            match lire_odt_texte(donnees) {
                Ok(texte) => Ok(Sortie::Texte(texte)),
                Err(e) => Err(e),
            }
        },
        (fe, Some(FormatSortie::Docx)) => {
            let texte = match fe {
                Some(FormatEntree::Md) => {
                    let html = md_vers_html(donnees);
                    html_vers_texte(&html)
                },
                Some(FormatEntree::Html) => html_vers_texte(donnees),
                Some(FormatEntree::Docx) | Some(FormatEntree::Dotx) => {
                    match lire_docx_texte(donnees) {
                        Ok(t) => t,
                        Err(e) => {
                            return Err(e);
                        },
                    }
                },
                Some(FormatEntree::Odt) => {
                    match lire_odt_texte(donnees) {
                        Ok(t) => t,
                        Err(e) => {
                            return Err(e);
                        },
                    }
                },
                _ => crate::texte::copie_tranche(donnees, 0, donnees.len()),
            };
            proof {
                assert(texte@ == texte_pour_paquet(fe, donnees@));
            }
            match ecrire_docx_simple(&texte) {
                Ok(z) => Ok(Sortie::Paquet(z)),
                Err(e) => Err(e),
            }
        },
        _ => Ok(Sortie::CopieDirecte),
    }
}

/// Conversion avec formats donnes par l'appelant : la meme table, sous le
/// meme contrat, pour chaque paire de formats.
pub fn convertir_avec_formats(
    fmt_entree: Option<FormatEntree>,
    fmt_sortie: Option<FormatSortie>,
    donnees: &Vec<u8>,
) -> (r: Result<Sortie, Erreur>)
    ensures
        conversion_conforme(fmt_entree, fmt_sortie, donnees@, r),
{
    convertir(fmt_entree, fmt_sortie, donnees)
}

/// Le texte brut d'un contenu, selon son format.
pub fn extraire_texte(fmt: Option<FormatEntree>, donnees: &Vec<u8>) -> (r: Result<
    Vec<u8>,
    Erreur,
>)
    ensures
        match fmt {
            Some(FormatEntree::Html) => r matches Ok(t) && t@ == texte_de_html(donnees@),
            Some(FormatEntree::Md) => r matches Ok(t) && t@ == texte_de_html(
                html_de_markdown(donnees@),
            ),
            Some(FormatEntree::Docx) | Some(FormatEntree::Dotx) | Some(FormatEntree::Odt) => (
            match r {
                Ok(t) => conteneur_lisible(fmt->Some_0, donnees@) && t@ == texte_conteneur(
                    fmt->Some_0,
                    donnees@,
                ),
                Err(e) => e == Erreur::Chargement && !conteneur_lisible(fmt->Some_0, donnees@),
            }),
            _ => r matches Ok(t) && t@ == donnees@,
        },
{
    match fmt {
        Some(FormatEntree::Docx) | Some(FormatEntree::Dotx) => lire_docx_texte(donnees),
        Some(FormatEntree::Odt) => lire_odt_texte(donnees),
        Some(FormatEntree::Html) => Ok(html_vers_texte(donnees)),
        Some(FormatEntree::Md) => {
            let html = md_vers_html(donnees);
            Ok(html_vers_texte(&html))
        },
        _ => Ok(crate::texte::copie_tranche(donnees, 0, donnees.len())),
    }
}

/// Delegations historiques de la table de conversion : les sources
/// structurees (tableaux, objets, listes) sont traitees comme du texte.
pub fn convertir_csv(donnees: &Vec<u8>, fmt: FormatSortie) -> (r: Result<Sortie, Erreur>)
    ensures
        conversion_conforme(Some(FormatEntree::Csv), Some(fmt), donnees@, r),
{
    convertir(Some(FormatEntree::Csv), Some(fmt), donnees)
}

pub fn traiter_log(donnees: &Vec<u8>, fmt: FormatSortie) -> (r: Result<Sortie, Erreur>)
    ensures
        conversion_conforme(Some(FormatEntree::Log), Some(fmt), donnees@, r),
{
    convertir(Some(FormatEntree::Log), Some(fmt), donnees)
}

pub fn convertir_yaml(donnees: &Vec<u8>, fmt: FormatSortie) -> (r: Result<Sortie, Erreur>)
    ensures
        conversion_conforme(Some(FormatEntree::Yaml), Some(fmt), donnees@, r),
{
    convertir(Some(FormatEntree::Yaml), Some(fmt), donnees)
}

pub fn convertir_typst(donnees: &Vec<u8>, fmt: FormatSortie) -> (r: Result<Sortie, Erreur>)
    ensures
        conversion_conforme(Some(FormatEntree::Typst), Some(fmt), donnees@, r),
{
    convertir(Some(FormatEntree::Typst), Some(fmt), donnees)
}

pub fn convertir_pdf(donnees: &Vec<u8>, fmt: FormatSortie) -> (r: Result<Sortie, Erreur>)
    ensures
        conversion_conforme(Some(FormatEntree::Pdf), Some(fmt), donnees@, r),
{
    convertir(Some(FormatEntree::Pdf), Some(fmt), donnees)
}

} // verus!
