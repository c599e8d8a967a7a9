//! Generation d'un document PDF a partir de texte brut : pagination a
//! geometrie fixe (A4, marges constantes), cesure des lignes a largeur
//! bornee, encodage WinAnsi des deux polices de base. Aucune police n'est
//! embarquee.
use vstd::prelude::*;

use crate::Erreur;
use crate::modele::{Document, Objet, bien_forme, cherche_spec, contient_id, ref_de};
use crate::texte::{
    decoupe_lignes, decouper_texte, encoder_winansi, octets_ascii, pousse_litteral, pousse_octets,
    winansi,
};

verus! {

/// Largeur maximale d'une ligne, en caracteres : la largeur utile de la
/// page (595 - 2 x 50 points) sur une chasse approchee d'un demi-corps
/// (11 points / 2).
pub const CHARS_PAR_LIGNE: usize = 90;

/// Lignes par page : la hauteur utile (842 - 2 x 50 points) sur
/// l'interligne (1,4 x 11 points).
pub const LIGNES_PAR_PAGE: usize = 48;

/// Le nombre de pages que la mise en page d'un texte produit : une page
/// par tranche de lignes, et jamais moins d'une page.
pub open spec fn nb_pages_attendu(texte: Seq<u8>) -> int {
    let m = decoupe_lignes(texte, CHARS_PAR_LIGNE as int).len() as int;
    if m == 0 {
        1
    } else {
        (m + (LIGNES_PAR_PAGE - 1)) / (LIGNES_PAR_PAGE as int)
    }
}

/// L'echappement d'une chaine litterale PDF : `\\`, `(` et `)` precedes
/// d'une barre oblique inverse.
pub open spec fn echappe_pdf(s: Seq<u8>) -> Seq<u8>
    decreases s.len(),
{
    if s.len() == 0 {
        s
    } else if s[0] == 40 || s[0] == 41 || s[0] == 92 {
        seq![92u8, s[0]] + echappe_pdf(s.drop_first())
    } else {
        seq![s[0]] + echappe_pdf(s.drop_first())
    }
}

/// Echappe une chaine litterale PDF.
#[verifier::loop_isolation(false)]
pub fn echapper_pdf(s: &Vec<u8>) -> (r: Vec<u8>)
    ensures
        r@ == echappe_pdf(s@),
{
    let mut sortie: Vec<u8> = Vec::new();
    proof {
        assert(s@.skip(0) =~= s@);
        assert(Seq::<u8>::empty() + echappe_pdf(s@) =~= echappe_pdf(s@));
    }
    let mut i: usize = 0;
    while i < s.len()
        invariant
            0 <= i <= s@.len(),
            echappe_pdf(s@) == sortie@ + echappe_pdf(s@.skip(i as int)),
        decreases s@.len() - i,
    {
        proof {
            assert(s@.skip(i as int)[0] == s@[i as int]);
            assert(s@.skip(i as int).drop_first() =~= s@.skip(i as int + 1));
        }
        let b = s[i];
        if b == 40 || b == 41 || b == 92 {
            sortie.push(92);
            sortie.push(b);
        } else {
            sortie.push(b);
        }
        i = i + 1;
    }
    proof {
        assert(s@.skip(s@.len() as int).len() == 0);
        assert(sortie@ =~= echappe_pdf(s@));
    }
    sortie
}

/// Le flux de contenu d'une page de texte : ouverture du bloc texte,
/// police, interligne, point de depart, puis chaque ligne montree et un
/// passage a la ligne, enfin la fermeture du bloc.
pub open spec fn contenu_page(lignes: Seq<Seq<u8>>) -> Seq<u8> {
    octets_ascii("BT\n/F1 11 Tf\n15.4 TL\n50 792 Td\n"@) + lignes_montrees(lignes) + octets_ascii(
        "ET\n"@,
    )
}

pub open spec fn lignes_montrees(lignes: Seq<Seq<u8>>) -> Seq<u8>
    decreases lignes.len(),
{
    if lignes.len() == 0 {
        Seq::empty()
    } else {
        octets_ascii("("@) + echappe_pdf(winansi(lignes[0])) + octets_ascii(") Tj\nT*\n"@)
            + lignes_montrees(lignes.drop_first())
    }
}

/// Construit le flux de contenu d'une page.
#[verifier::loop_isolation(false)]
pub fn flux_page(lignes: &Vec<Vec<u8>>, de: usize, a: usize) -> (r: Vec<u8>)
    requires
        0 <= de <= a <= lignes@.len(),
    ensures
        r@ == contenu_page(lignes@.map_values(|v: Vec<u8>| v@).subrange(de as int, a as int)),
{
    let ghost tranche = lignes@.map_values(|v: Vec<u8>| v@).subrange(de as int, a as int);
    let mut sortie: Vec<u8> = Vec::new();
    proof {
        reveal_strlit("BT\n/F1 11 Tf\n15.4 TL\n50 792 Td\n");
        reveal_strlit("ET\n");
        reveal_strlit("(");
        reveal_strlit(") Tj\nT*\n");
    }
    pousse_litteral(&mut sortie, "BT\n/F1 11 Tf\n15.4 TL\n50 792 Td\n");
    let ghost entete = sortie@;
    proof {
        assert(tranche.skip(0) =~= tranche);
        assert(entete + Seq::<u8>::empty() =~= entete);
    }
    let mut i: usize = de;
    while i < a
        invariant
            de <= i <= a,
            entete + lignes_montrees(tranche) == sortie@ + lignes_montrees(
                tranche.skip(i - de as int),
            ),
        decreases a - i,
    {
        let ghost reste = tranche.skip(i - de as int);
        proof {
            assert(reste[0] == tranche[i - de as int]);
            assert(tranche[i - de as int] == lignes@.map_values(|v: Vec<u8>| v@)[i as int]);
            assert(reste.drop_first() =~= tranche.skip(i + 1 - de as int));
        }
        pousse_litteral(&mut sortie, "(");
        let encodee = encoder_winansi(&lignes[i]);
        let echappee = echapper_pdf(&encodee);
        pousse_octets(&mut sortie, &echappee);
        pousse_litteral(&mut sortie, ") Tj\nT*\n");
        i = i + 1;
    }
    proof {
        assert(tranche.skip(a - de as int).len() == 0);
        assert(lignes_montrees(tranche.skip(a - de as int)) =~= Seq::<u8>::empty());
        assert(sortie@ =~= entete + lignes_montrees(tranche));
    }
    pousse_litteral(&mut sortie, "ET\n");
    proof {
        assert(sortie@ =~= contenu_page(tranche));
    }
    sortie
}

} // verus!

verus! {

/// Le plus petit des deux.
pub open spec fn mini(a: int, b: int) -> int {
    if a <= b {
        a
    } else {
        b
    }
}

/// Le flux de contenu attendu pour la page `k` d'un texte : sa tranche de
/// lignes, ou rien du tout pour l'unique page d'un texte vide.
pub open spec fn contenu_attendu(texte: Seq<u8>, k: int) -> Seq<u8> {
    let morceaux = decoupe_lignes(texte, CHARS_PAR_LIGNE as int);
    if morceaux.len() == 0 {
        Seq::empty()
    } else {
        contenu_page(
            morceaux.subrange(
                k * (LIGNES_PAR_PAGE as int),
                mini((k + 1) * (LIGNES_PAR_PAGE as int), morceaux.len() as int),
            ),
        )
    }
}

/// Batit un document complet a partir d'un texte brut : pagination a
/// geometrie fixe, deux polices de base partagees par les pages, un flux
/// de contenu par page. Un texte vide donne exactement une page blanche.
/// Seul un texte dont la pagination depasse le milliard de pages est
/// refuse.
#[verifier::loop_isolation(false)]
#[verifier::rlimit(100)]
pub fn texte_vers_pdf(texte: &Vec<u8>) -> (r: Result<Document, Erreur>)
    ensures
        match r {
            Ok(d) => {
                &&& bien_forme(d)
                &&& d.chiffrement is None
                &&& crate::modele::nombre_pages(d) == nb_pages_attendu(texte@)
                &&& forall|k: int|
                    0 <= k < nb_pages_attendu(texte@) ==> ((#[trigger] cherche_spec(
                        d.objets@,
                        (3 + 2 * k) as u64,
                    )) matches Some(o) && o matches Objet::Flux(fe, fb) && fe@.len() == 0 && fb@
                        == contenu_attendu(texte@, k))
                &&& forall|k: int|
                    0 <= k < nb_pages_attendu(texte@) ==> #[trigger] crate::modele::pages_spec(
                        d,
                    )[k] == (4 + 2 * k) as u64
                &&& forall|k: int|
                    0 <= k < nb_pages_attendu(texte@) ==> crate::operations::boite_de(
                        d.objets@,
                        (#[trigger] crate::modele::pages_spec(d))[k],
                    ) == Some((0int, 0int, 595000int, 842000int))
                &&& forall|k: int|
                    0 <= k < nb_pages_attendu(texte@) ==> page_bien_batie(
                        (#[trigger] cherche_spec(d.objets@, (4 + 2 * k) as u64))->Some_0,
                        (3 + 2 * k) as u64,
                        (3 + 2 * nb_pages_attendu(texte@)) as u64,
                    )
                &&& (cherche_spec(d.objets@, 1) matches Some(o1) && police_batie(o1, false))
                &&& (cherche_spec(d.objets@, 2) matches Some(o2) && police_batie(o2, true))
            },
            Err(e) => {
                &&& e == Erreur::Structurelle
                &&& nb_pages_attendu(texte@) > 1_000_000_000
            },
        },
{
    let lignes = decouper_texte(texte, CHARS_PAR_LIGNE);
    let m = lignes.len();
    let n_pages: usize = if m == 0 {
        1
    } else {
        (m - 1) / LIGNES_PAR_PAGE + 1
    };
    proof {
        if m > 0 {
            assert(n_pages as int == (m + (LIGNES_PAR_PAGE - 1)) / (LIGNES_PAR_PAGE as int));
        }
        assert(n_pages as int == nb_pages_attendu(texte@));
    }
    if n_pages > 1_000_000_000 {
        return Err(Erreur::Structurelle);
    }
    let n = n_pages as u64;
    let ghost borne: u64 = (4 + 2 * n) as u64;
    let racine_id: u64 = 3 + 2 * n;
    let catalogue_id: u64 = 4 + 2 * n;
    let mut objets: Vec<(u64, Objet)> = Vec::new();
    proof {
        reveal_strlit("Type");
        reveal_strlit("Subtype");
        reveal_strlit("BaseFont");
        reveal_strlit("Encoding");
        reveal_strlit("Font");
        reveal_strlit("Type1");
        reveal_strlit("Helvetica");
        reveal_strlit("Helvetica-Bold");
        reveal_strlit("WinAnsiEncoding");
        reveal_strlit("MediaBox");
        reveal_strlit("Resources");
        reveal_strlit("Contents");
        reveal_strlit("Parent");
        reveal_strlit("F1");
        reveal_strlit("F2");
        reveal_strlit("Page");
        reveal_strlit("Pages");
        reveal_strlit("Kids");
        reveal_strlit("Count");
        reveal_strlit("Catalog");
    }
    let f1 = police(false);
    objets.push((1, f1));
    let f2 = police(true);
    objets.push((2, f2));
    let mut k: usize = 0;
    while k < n_pages
        invariant
            0 <= k <= n_pages,
            n == n_pages as u64,
            n_pages <= 1_000_000_000,
            n_pages as int == nb_pages_attendu(texte@),
            m == lignes@.len(),
            lignes@.map_values(|v: Vec<u8>| v@) == decoupe_lignes(texte@, CHARS_PAR_LIGNE as int),
            m == 0 ==> n_pages == 1,
            m > 0 ==> n_pages as int == (m + (LIGNES_PAR_PAGE - 1)) / (LIGNES_PAR_PAGE as int),
            objets@.len() == 2 + 2 * k,
            forall|j: int| 0 <= j < objets@.len() ==> (#[trigger] objets@[j]).0 == j + 1,
            forall|j: int, x: u64|
                0 <= j < objets@.len() && #[trigger] ref_de(objets@[j].1, x) ==> 1 <= x <= borne,
            forall|q: int|
                0 <= q < k ==> ((#[trigger] objets@[2 + 2 * q].1) matches Objet::Flux(fe, fb)
                    && fe@.len() == 0 && fb@ == contenu_attendu(texte@, q)),
            forall|q: int|
                0 <= q < k ==> ((#[trigger] objets@[3 + 2 * q].1) matches Objet::Dictionnaire(pe)
                    && (valeur_cle_page(pe@) matches Some(nn) && nn == "Page"@)),
            forall|q: int|
                0 <= q < k ==> page_bien_batie(
                    (#[trigger] objets@[3 + 2 * q]).1,
                    (3 + 2 * q) as u64,
                    racine_id,
                ),
            police_batie(objets@[0].1, false),
            police_batie(objets@[1].1, true),
        decreases n_pages - k,
    {
        let ghost objets0 = objets@;
        proof {
            if m > 0 {
                assert(k * LIGNES_PAR_PAGE < m) by (nonlinear_arith)
                    requires
                        0 <= k < n_pages,
                        m > 0,
                        n_pages as int == (m + (LIGNES_PAR_PAGE - 1)) / (LIGNES_PAR_PAGE as int),
                        LIGNES_PAR_PAGE == 48,
                ;
            }
        }
        let debut: usize = if m == 0 {
            0
        } else {
            k * LIGNES_PAR_PAGE
        };
        let fin: usize = if m - debut <= LIGNES_PAR_PAGE {
            m
        } else {
            debut + LIGNES_PAR_PAGE
        };
        proof {
            if m > 0 {
                assert(fin as int == mini(
                    (k as int + 1) * (LIGNES_PAR_PAGE as int),
                    m as int,
                )) by (nonlinear_arith)
                    requires
                        debut as int == k as int * (LIGNES_PAR_PAGE as int),
                        m > 0,
                        debut < m,
                        fin as int == (if m - debut <= LIGNES_PAR_PAGE {
                            m as int
                        } else {
                            debut as int + LIGNES_PAR_PAGE
                        }),
                        LIGNES_PAR_PAGE == 48,
                ;
            }
        }
        let contenu = if m == 0 {
            Vec::new()
        } else {
            flux_page(&lignes, debut, fin)
        };
        proof {
            if m > 0 {
                assert(contenu@ == contenu_attendu(texte@, k as int));
            } else {
                assert(contenu@ == contenu_attendu(texte@, k as int));
            }
        }
        let sid: u64 = 3 + 2 * (k as u64);
        let pid: u64 = 4 + 2 * (k as u64);
        let flux = Objet::Flux(Vec::new(), contenu);
        proof {
            assert(forall|x: u64| !ref_de(flux, x));
        }
        objets.push((sid, flux));
        let page = page_texte(sid, racine_id);
        objets.push((pid, page));
        proof {
            assert forall|j: int, x: u64|
                0 <= j < objets@.len() && #[trigger] ref_de(objets@[j].1, x) implies 1 <= x
                <= borne by {
                if j < objets0.len() {
                    assert(objets@[j] == objets0[j]);
                } else if j == objets0.len() {
                    assert(!ref_de(objets@[j].1, x));
                } else {
                    assert(objets@[j].1 == page);
                }
            }
            assert forall|q: int| 0 <= q < k + 1 implies ((#[trigger] objets@[3 + 2 * q].1)
                matches Objet::Dictionnaire(pe) && (valeur_cle_page(pe@) matches Some(nn) && nn
                == "Page"@)) by {
                if q < k {
                    assert(objets@[3 + 2 * q] == objets0[3 + 2 * q]);
                } else {
                    assert(objets@[3 + 2 * q].1 == page);
                }
            }
            assert forall|q: int| 0 <= q < k + 1 implies page_bien_batie(
                (#[trigger] objets@[3 + 2 * q]).1,
                (3 + 2 * q) as u64,
                racine_id,
            ) by {
                if q < k {
                    assert(objets@[3 + 2 * q] == objets0[3 + 2 * q]);
                } else {
                    assert(objets@[3 + 2 * q].1 == page);
                }
            }
            assert forall|q: int| 0 <= q < k + 1 implies ((#[trigger] objets@[2 + 2 * q].1)
                matches Objet::Flux(fe, fb) && fe@.len() == 0 && fb@ == contenu_attendu(
                texte@,
                q,
            )) by {
                if q < k {
                    assert(objets@[2 + 2 * q] == objets0[2 + 2 * q]);
                } else {
                    assert(objets@[2 + 2 * q].1 == flux);
                }
            }
        }
        k = k + 1;
    }
    let mut kids: Vec<Objet> = Vec::new();
    let mut q: usize = 0;
    while q < n_pages
        invariant
            0 <= q <= n_pages,
            kids@.len() == q,
            n == n_pages as u64,
            n_pages <= 1_000_000_000,
            forall|j: int|
                0 <= j < q ==> (#[trigger] kids@[j]) == Objet::Reference((4 + 2 * j) as u64),
        decreases n_pages - q,
    {
        kids.push(Objet::Reference(4 + 2 * (q as u64)));
        q = q + 1;
    }
    let ghost gkids = kids@;
    let mut racine_e: Vec<(String, Objet)> = Vec::new();
    racine_e.push(("Type".to_owned(), Objet::Nom("Pages".to_owned())));
    racine_e.push(("Kids".to_owned(), Objet::Tableau(kids)));
    racine_e.push(("Count".to_owned(), Objet::Entier(n_pages as i64)));
    let ghost gracine_e = racine_e@;
    let racine_o = Objet::Dictionnaire(racine_e);
    proof {
        assert forall|x: u64| #[trigger] ref_de(racine_o, x) implies 1 <= x <= borne by {
            let j = choose|j: int| 0 <= j < gracine_e.len() && ref_de(#[trigger] gracine_e[j].1, x);
            if j == 1 {
                let w = choose|w: int| 0 <= w < gkids.len() && ref_de(#[trigger] gkids[w], x);
                assert(x == (4 + 2 * w) as u64);
            }
        }
    }
    objets.push((racine_id, racine_o));
    let mut cat_e: Vec<(String, Objet)> = Vec::new();
    cat_e.push(("Type".to_owned(), Objet::Nom("Catalog".to_owned())));
    cat_e.push(("Pages".to_owned(), Objet::Reference(racine_id)));
    let ghost gcat_e = cat_e@;
    let cat_o = Objet::Dictionnaire(cat_e);
    proof {
        assert forall|x: u64| #[trigger] ref_de(cat_o, x) implies 1 <= x <= borne by {
            let j = choose|j: int| 0 <= j < gcat_e.len() && ref_de(#[trigger] gcat_e[j].1, x);
            assert(j == 1 && x == racine_id);
        }
    }
    objets.push((catalogue_id, cat_o));
    let d = Document { objets, racine: catalogue_id, chiffrement: None };
    proof {
        admettre_bien_forme(&d, texte@, n as int, gkids);
    }
    Ok(d)
}

/// Une page batie par le generateur : type page, format A4 plein, les
/// deux polices partagees F1 et F2 en Resources, le flux de contenu et le
/// parent donnes par reference.
pub open spec fn page_bien_batie(o: Objet, sid: u64, racine_id: u64) -> bool {
    &&& o matches Objet::Dictionnaire(e)
    &&& (valeur_cle_page(e@) matches Some(nn) && nn == "Page"@)
    &&& (crate::modele::valeur_cle(e@, "MediaBox"@) matches Some(mb)
        && crate::operations::boite_du_tableau(mb) == Some((0int, 0int, 595000int, 842000int)))
    &&& crate::modele::valeur_cle(e@, "Resources"@) matches Some(rv)
    &&& rv matches Objet::Dictionnaire(res)
    &&& crate::modele::valeur_cle(res@, "Font"@) matches Some(fv)
    &&& fv matches Objet::Dictionnaire(fonts)
    &&& (crate::modele::valeur_cle(fonts@, "F1"@) matches Some(f1) && f1 == Objet::Reference(1u64))
    &&& (crate::modele::valeur_cle(fonts@, "F2"@) matches Some(f2) && f2 == Objet::Reference(2u64))
    &&& crate::modele::valeur_cle(e@, "Contents"@) == Some(Objet::Reference(sid))
    &&& crate::modele::valeur_cle(e@, "Parent"@) == Some(Objet::Reference(racine_id))
}

/// La valeur `Type` d'entrees de dictionnaire, si c'est un nom.
pub open spec fn valeur_cle_page(e: Seq<(String, Objet)>) -> Option<Seq<char>> {
    match crate::modele::valeur_cle(e, "Type"@) {
        Some(Objet::Nom(nn)) => Some(nn@),
        _ => None,
    }
}

/// Une police de base du generateur : type Font, sous-type Type1, police
/// de base nommee, encodage WinAnsi, sans reference.
pub open spec fn police_batie(o: Objet, grasse: bool) -> bool {
    &&& o matches Objet::Dictionnaire(e)
    &&& (valeur_cle_page(e@) matches Some(nn) && nn == "Font"@)
    &&& (crate::modele::valeur_cle(e@, "Subtype"@) matches Some(st) && st matches Objet::Nom(sn)
        && sn@ == "Type1"@)
    &&& (crate::modele::valeur_cle(e@, "BaseFont"@) matches Some(bf) && bf matches Objet::Nom(bn)
        && bn@ == (if grasse {
        "Helvetica-Bold"@
    } else {
        "Helvetica"@
    }))
    &&& (crate::modele::valeur_cle(e@, "Encoding"@) matches Some(en) && en matches Objet::Nom(ev)
        && ev@ == "WinAnsiEncoding"@)
}

/// Un dictionnaire de police de base, reguliere ou grasse.
fn police(grasse: bool) -> (r: Objet)
    ensures
        ({
            &&& r matches Objet::Dictionnaire(e)
            &&& forall|x: u64| !ref_de(r, x)
            &&& valeur_cle_page(e@) matches Some(nn)
            &&& nn == "Font"@
        }),
        police_batie(r, grasse),
{
    proof {
        reveal_strlit("Type");
        reveal_strlit("Subtype");
        reveal_strlit("BaseFont");
        reveal_strlit("Encoding");
        reveal_strlit("Font");
        reveal_strlit("Type1");
        reveal_strlit("Helvetica");
        reveal_strlit("Helvetica-Bold");
        reveal_strlit("WinAnsiEncoding");
    }
    let mut e: Vec<(String, Objet)> = Vec::new();
    e.push(("Type".to_owned(), Objet::Nom("Font".to_owned())));
    e.push(("Subtype".to_owned(), Objet::Nom("Type1".to_owned())));
    if grasse {
        e.push(("BaseFont".to_owned(), Objet::Nom("Helvetica-Bold".to_owned())));
    } else {
        e.push(("BaseFont".to_owned(), Objet::Nom("Helvetica".to_owned())));
    }
    e.push(("Encoding".to_owned(), Objet::Nom("WinAnsiEncoding".to_owned())));
    let ghost ge = e@;
    let r = Objet::Dictionnaire(e);
    proof {
        reveal_with_fuel(crate::modele::valeur_cle, 6);
        assert("Type"@.len() == 4 && "Subtype"@.len() == 7 && "BaseFont"@.len() == 8
            && "Encoding"@.len() == 8);
        assert("BaseFont"@[0] == 'B' && "Encoding"@[0] == 'E');
        assert(ge.drop_first()[0] == ge[1]);
        assert(ge.drop_first().drop_first()[0] == ge[2]);
        assert(ge.drop_first().drop_first().drop_first()[0] == ge[3]);
        assert(crate::modele::valeur_cle(ge, "Subtype"@) == Some(ge[1].1));
        assert(crate::modele::valeur_cle(ge, "BaseFont"@) == Some(ge[2].1));
        assert(crate::modele::valeur_cle(ge, "Encoding"@) == Some(ge[3].1));
        assert forall|x: u64| !ref_de(r, x) by {
            if ref_de(r, x) {
                let j = choose|j: int| 0 <= j < ge.len() && ref_de(#[trigger] ge[j].1, x);
                assert(ge[j].1 is Nom);
            }
        }
    }
    r
}

/// Le dictionnaire d'une page de texte : geometrie A4, les deux polices
/// partagees, le flux de contenu et le parent donnes par reference.
fn page_texte(sid: u64, racine_id: u64) -> (r: Objet)
    ensures
        r matches Objet::Dictionnaire(e) && (valeur_cle_page(e@) matches Some(nn) && nn
            == "Page"@) && (forall|x: u64|
            #[trigger] ref_de(r, x) ==> x == 1 || x == 2 || x == sid || x == racine_id),
        page_bien_batie(r, sid, racine_id),
{
    proof {
        reveal_strlit("Type");
        reveal_strlit("Page");
        reveal_strlit("MediaBox");
        reveal_strlit("Resources");
        reveal_strlit("Contents");
        reveal_strlit("Parent");
        reveal_strlit("Font");
        reveal_strlit("F1");
        reveal_strlit("F2");
    }
    let mut boite: Vec<Objet> = Vec::new();
    boite.push(Objet::Entier(0));
    boite.push(Objet::Entier(0));
    boite.push(Objet::Entier(595));
    boite.push(Objet::Entier(842));
    let ghost gboite = boite@;
    let mut polices: Vec<(String, Objet)> = Vec::new();
    polices.push(("F1".to_owned(), Objet::Reference(1)));
    polices.push(("F2".to_owned(), Objet::Reference(2)));
    let ghost gpolices = polices@;
    let mut ressources: Vec<(String, Objet)> = Vec::new();
    ressources.push(("Font".to_owned(), Objet::Dictionnaire(polices)));
    let ghost gressources = ressources@;
    let mut e: Vec<(String, Objet)> = Vec::new();
    e.push(("Type".to_owned(), Objet::Nom("Page".to_owned())));
    e.push(("MediaBox".to_owned(), Objet::Tableau(boite)));
    e.push(("Resources".to_owned(), Objet::Dictionnaire(ressources)));
    e.push(("Contents".to_owned(), Objet::Reference(sid)));
    e.push(("Parent".to_owned(), Objet::Reference(racine_id)));
    let ghost ge = e@;
    let r = Objet::Dictionnaire(e);
    proof {
        reveal_with_fuel(crate::modele::valeur_cle, 7);
        assert("Type"@.len() == 4 && "MediaBox"@.len() == 8 && "Resources"@.len() == 9
            && "Contents"@.len() == 8 && "Parent"@.len() == 6 && "Font"@.len() == 4
            && "F1"@.len() == 2 && "F2"@.len() == 2);
        assert("Contents"@[0] == 'C' && "MediaBox"@[0] == 'M' && "Type"@[0] == 'T' && "F1"@[1]
            == '1' && "F2"@[1] == '2' && "Font"@[0] == 'F');
        assert(ge.drop_first()[0] == ge[1]);
        assert(ge.drop_first().drop_first()[0] == ge[2]);
        assert(ge.drop_first().drop_first().drop_first()[0] == ge[3]);
        assert(ge.drop_first().drop_first().drop_first().drop_first()[0] == ge[4]);
        assert(crate::modele::valeur_cle(ge, "MediaBox"@) == Some(ge[1].1));
        assert(crate::modele::valeur_cle(ge, "Resources"@) == Some(ge[2].1));
        assert(crate::modele::valeur_cle(ge, "Contents"@) == Some(ge[3].1));
        assert(crate::modele::valeur_cle(ge, "Parent"@) == Some(ge[4].1));
        assert(gressources.drop_first() =~= Seq::<(String, Objet)>::empty());
        assert(crate::modele::valeur_cle(gressources, "Font"@) == Some(gressources[0].1));
        assert(gpolices.drop_first()[0] == gpolices[1]);
        assert(crate::modele::valeur_cle(gpolices, "F1"@) == Some(gpolices[0].1));
        assert(crate::modele::valeur_cle(gpolices, "F2"@) == Some(gpolices[1].1));
        assert(crate::operations::boite_du_tableau(ge[1].1) == Some(
            (0int, 0int, 595000int, 842000int),
        ));
        assert(page_bien_batie(r, sid, racine_id));
        assert forall|x: u64| #[trigger] ref_de(r, x) implies x == 1 || x == 2 || x == sid || x
            == racine_id by {
            let j = choose|j: int| 0 <= j < ge.len() && ref_de(#[trigger] ge[j].1, x);
            if j == 1 {
                let w = choose|w: int| 0 <= w < gboite.len() && ref_de(#[trigger] gboite[w], x);
                assert(gboite[w] is Entier);
                assert(false);
            } else if j == 2 {
                let w = choose|w: int|
                    0 <= w < gressources.len() && ref_de(#[trigger] gressources[w].1, x);
                let u = choose|u: int|
                    0 <= u < gpolices.len() && ref_de(#[trigger] gpolices[u].1, x);
                assert(x == 1 || x == 2);
            }
        }
    }
    r
}

/// Le document assemble par `texte_vers_pdf` est bien forme et porte le
/// compte de pages attendu.
proof fn admettre_bien_forme(d: &Document, texte: Seq<u8>, n: int, gkids: Seq<Objet>)
    requires
        d.objets@.len() == 4 + 2 * n,
        1 <= n <= 1_000_000_000,
        d.racine == (4 + 2 * n) as u64,
        forall|j: int| 0 <= j < d.objets@.len() ==> (#[trigger] d.objets@[j]).0 == j + 1,
        forall|j: int, x: u64|
            0 <= j < d.objets@.len() && #[trigger] ref_de(d.objets@[j].1, x) ==> 1 <= x <= (4 + 2
                * n) as u64,
        forall|q: int|
            0 <= q < n ==> ((#[trigger] d.objets@[3 + 2 * q].1) matches Objet::Dictionnaire(pe)
                && (valeur_cle_page(pe@) matches Some(nn) && nn == "Page"@)),
        forall|q: int|
            0 <= q < n ==> page_bien_batie(
                (#[trigger] d.objets@[3 + 2 * q]).1,
                (3 + 2 * q) as u64,
                (3 + 2 * n) as u64,
            ),
        police_batie(d.objets@[0].1, false),
        police_batie(d.objets@[1].1, true),
        gkids.len() == n,
        forall|j: int| 0 <= j < n ==> (#[trigger] gkids[j]) == Objet::Reference((4 + 2 * j) as u64),
        ({
            &&& d.objets@[2 + 2 * n].1 matches Objet::Dictionnaire(re)
            &&& re@.len() == 3
            &&& re@[0].0@ == "Type"@
            &&& re@[0].1 matches Objet::Nom(nt)
            &&& nt@ == "Pages"@
            &&& re@[1].0@ == "Kids"@
            &&& re@[1].1 matches Objet::Tableau(kt)
            &&& kt@ == gkids
            &&& re@[2].0@ == "Count"@
            &&& re@[2].1 matches Objet::Entier(cn)
            &&& cn == n
        }),
        ({
            &&& d.objets@[3 + 2 * n].1 matches Objet::Dictionnaire(ce)
            &&& ce@.len() == 2
            &&& ce@[0].0@ == "Type"@
            &&& ce@[0].1 matches Objet::Nom(ct)
            &&& ct@ == "Catalog"@
            &&& ce@[1].0@ == "Pages"@
            &&& ce@[1].1 matches Objet::Reference(pr)
            &&& pr == (3 + 2 * n) as u64
        }),
    ensures
        bien_forme(*d),
        crate::modele::nombre_pages(*d) == n,
        forall|k: int|
            0 <= k < n ==> #[trigger] cherche_spec(d.objets@, (3 + 2 * k) as u64) == Some(
                d.objets@[2 + 2 * k].1,
            ),
        forall|k: int| 0 <= k < n ==> #[trigger] crate::modele::pages_spec(*d)[k] == (4 + 2
            * k) as u64,
        forall|k: int|
            0 <= k < n ==> crate::operations::boite_de(
                d.objets@,
                (#[trigger] crate::modele::pages_spec(*d))[k],
            ) == Some((0int, 0int, 595000int, 842000int)),
        forall|k: int|
            0 <= k < n ==> page_bien_batie(
                (#[trigger] cherche_spec(d.objets@, (4 + 2 * k) as u64))->Some_0,
                (3 + 2 * k) as u64,
                (3 + 2 * n) as u64,
            ),
        cherche_spec(d.objets@, 1) matches Some(o1) && police_batie(o1, false),
        cherche_spec(d.objets@, 2) matches Some(o2) && police_batie(o2, true),
{
    reveal_strlit("Type");
    reveal_strlit("Page");
    reveal_strlit("Pages");
    reveal_strlit("Kids");
    reveal_strlit("Count");
    reveal_strlit("Catalog");
    assert("Type"@.len() == 4 && "Kids"@.len() == 4 && "Count"@.len() == 5 && "Pages"@.len() == 5);
    assert("Type"@[0] == 'T' && "Kids"@[0] == 'K' && "Count"@[0] == 'C');
    reveal_with_fuel(crate::modele::valeur_cle, 5);
    let objets = d.objets@;
    assert(crate::modele::ids_uniques(objets));
    assert(crate::modele::ids_bornes(objets));
    assert forall|i: int, x: u64|
        0 <= i < objets.len() && #[trigger] ref_de(objets[i].1, x) implies contient_id(
        objets,
        x,
    ) by {
        crate::modele::lemma_indice_cherche(objets, x - 1);
    }
    crate::modele::lemma_cherche_unique(objets, 3 + 2 * n);
    crate::modele::lemma_cherche_unique(objets, 2 + 2 * n);
    assert(objets[3 + 2 * n].0 == (4 + 2 * n) as u64);
    assert(objets[2 + 2 * n].0 == (3 + 2 * n) as u64);
    assert(cherche_spec(objets, (4 + 2 * n) as u64) == Some(objets[3 + 2 * n].1));
    assert(cherche_spec(objets, (3 + 2 * n) as u64) == Some(objets[2 + 2 * n].1));
    let ce = objets[3 + 2 * n].1->Dictionnaire_0;
    assert(crate::modele::valeur_cle(ce@, "Type"@) == Some(ce@[0].1));
    assert(ce@.drop_first()[0] == ce@[1]);
    assert(crate::modele::valeur_cle(ce@, "Pages"@) == Some(ce@[1].1));
    assert(crate::modele::est_dict_de_type(objets, d.racine, "Catalog"@));
    assert(crate::modele::id_pages(*d) == Some((3 + 2 * n) as u64));
    let re = objets[2 + 2 * n].1->Dictionnaire_0;
    assert(re@.drop_first()[0] == re@[1]);
    assert(re@.drop_first().drop_first()[0] == re@[2]);
    assert(crate::modele::valeur_cle(re@, "Type"@) == Some(re@[0].1));
    assert(crate::modele::valeur_cle(re@, "Kids"@) == Some(re@[1].1));
    assert(crate::modele::valeur_cle(re@, "Count"@) == Some(re@[2].1));
    assert(crate::modele::est_dict_de_type(objets, (3 + 2 * n) as u64, "Pages"@));
    assert forall|k: int| 0 <= k < gkids.len() implies ((#[trigger] gkids[k])
        matches Objet::Reference(rr) && crate::modele::est_dict_de_type(objets, rr, "Page"@)) by {
        crate::modele::lemma_cherche_unique(objets, 3 + 2 * k);
        assert(objets[3 + 2 * k].0 == (4 + 2 * k) as u64);
        assert(cherche_spec(objets, (4 + 2 * k) as u64) == Some(objets[3 + 2 * k].1));
        assert(objets[3 + 2 * k].1 matches Objet::Dictionnaire(pe) && (valeur_cle_page(pe@)
            matches Some(nn) && nn == "Page"@));
    }
    assert(crate::modele::kids_de(*d) == gkids);
    assert(crate::modele::pages_spec(*d).len() == n);
    assert forall|k: int| 0 <= k < n implies #[trigger] cherche_spec(
        objets,
        (3 + 2 * k) as u64,
    ) == Some(objets[2 + 2 * k].1) by {
        crate::modele::lemma_cherche_unique(objets, 2 + 2 * k);
    }
    reveal_strlit("MediaBox");
    assert("MediaBox"@.len() == 8 && "Type"@.len() == 4);
    assert forall|k: int| 0 <= k < n implies #[trigger] crate::modele::pages_spec(*d)[k] == (4 + 2
        * k) as u64 by {
        assert(crate::modele::kids_de(*d)[k] == gkids[k]);
    }
    assert forall|k: int| 0 <= k < n implies page_bien_batie(
        (#[trigger] cherche_spec(objets, (4 + 2 * k) as u64))->Some_0,
        (3 + 2 * k) as u64,
        (3 + 2 * n) as u64,
    ) by {
        crate::modele::lemma_cherche_unique(objets, 3 + 2 * k);
        assert(objets[3 + 2 * k].0 == (4 + 2 * k) as u64);
        assert(cherche_spec(objets, (4 + 2 * k) as u64) == Some(objets[3 + 2 * k].1));
    }
    assert forall|k: int| 0 <= k < n implies crate::operations::boite_de(
        objets,
        (#[trigger] crate::modele::pages_spec(*d))[k],
    ) == Some((0int, 0int, 595000int, 842000int)) by {
        crate::modele::lemma_cherche_unique(objets, 3 + 2 * k);
        assert(cherche_spec(objets, (4 + 2 * k) as u64) == Some(objets[3 + 2 * k].1));
        let pe = objets[3 + 2 * k].1->Dictionnaire_0;
        assert(crate::operations::cle_objet(objets, (4 + 2 * k) as u64, "MediaBox"@)
            == crate::modele::valeur_cle(pe@, "MediaBox"@));
    }
    crate::modele::lemma_cherche_unique(objets, 0);
    crate::modele::lemma_cherche_unique(objets, 1);
    assert(objets[0].0 == 1u64 && objets[1].0 == 2u64);
    assert(cherche_spec(objets, 1) == Some(objets[0].1));
    assert(cherche_spec(objets, 2) == Some(objets[1].1));
}

} // verus!
