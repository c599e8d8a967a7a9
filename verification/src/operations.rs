//! Operations structurelles sur un document : rotation, recadrage,
//! reorganisation, suppression de pages, numerotation, filigrane,
//! protection, nettoyage. Chaque operation exige un document bien forme
//! et le laisse bien forme ; aucune ne touche au fichier d'origine, la
//! sauvegarde revenant a l'application hote.
use vstd::prelude::*;

use crate::Erreur;
use crate::modele::{
    BORNE_ID, Chiffrement, arbre_pages, lemma_maximum_id, maximum_id,
    Document, Objet, bien_forme, cherche_spec, contient_id, dict_definir, dict_obtenir, egal_vue,
    est_dict_de_type, ferme, id_pages, ids_bornes, ids_uniques, kids_de, lemma_cherche_indice,
    nombre_pages, pages_spec, prend, ref_de, valeur_cle,
};

verus! {

/// Une position de page (a partir de 1) est-elle visee ? Sans liste,
/// toutes les pages le sont.
pub open spec fn cible_page(cibles: Option<Seq<u32>>, position: int) -> bool {
    match cibles {
        None => true,
        Some(c) => 0 <= position <= u32::MAX && c.contains(position as u32),
    }
}

pub open spec fn vue_cibles(cibles: Option<&[u32]>) -> Option<Seq<u32>> {
    match cibles {
        None => None,
        Some(c) => Some(c@),
    }
}

/// La position `position` (a partir de 1) est-elle dans la liste ?
#[verifier::loop_isolation(false)]
pub fn est_cible(cibles: Option<&[u32]>, position: usize) -> (r: bool)
    ensures
        r == cible_page(vue_cibles(cibles), position as int),
{
    match cibles {
        None => true,
        Some(c) => {
            if position > u32::MAX as usize {
                return false;
            }
            let cherchee: u32 = position as u32;
            let mut i: usize = 0;
            while i < c.len()
                invariant
                    0 <= i <= c@.len(),
                    forall|j: int| 0 <= j < i ==> (#[trigger] c@[j]) != cherchee,
                decreases c@.len() - i,
            {
                if c[i] == cherchee {
                    proof {
                        assert(c@.contains(cherchee)) by {
                            assert(c@[i as int] == cherchee);
                        }
                        assert(cible_page(vue_cibles(cibles), position as int));
                    }
                    return true;
                }
                i = i + 1;
            }
            proof {
                assert(!c@.contains(cherchee));
            }
            false
        },
    }
}

/// Les pages du document portent des identites deux a deux distinctes.
pub open spec fn pages_distinctes(d: Document) -> bool {
    forall|i: int, j: int|
        0 <= i < j < pages_spec(d).len() ==> (#[trigger] pages_spec(d)[i]) != (
        #[trigger] pages_spec(d)[j])
}

/// La rotation rangee sur une page, 0 si absente ou d'une autre forme.
pub open spec fn rotation_de(objets: Seq<(u64, Objet)>, pid: u64) -> int {
    match cherche_spec(objets, pid) {
        Some(Objet::Dictionnaire(e)) => match valeur_cle(e@, "Rotate"@) {
            Some(Objet::Entier(a)) => a as int,
            _ => 0,
        },
        _ => 0,
    }
}

/// La rotation resultante : additive, ramenee dans [0, 360).
pub open spec fn rotation_apres(actuel: int, rotation: int) -> int {
    ((actuel % 360) + rotation + 360) % 360
}

/// Les entrees `nouvelles` gardent, cle a cle, les valeurs des `anciennes`,
/// a l'exception de `cle`.
pub open spec fn memes_cles_sauf(
    anciennes: Seq<(String, Objet)>,
    nouvelles: Seq<(String, Objet)>,
    cle: Seq<char>,
) -> bool {
    forall|k: Seq<char>|
        k != cle ==> #[trigger] valeur_cle(nouvelles, k) == valeur_cle(anciennes, k)
}

/// La page `pid` du resultat est celle de l'origine, avec `Rotate` porte a
/// la rotation additive demandee et les autres entrees inchangees.
pub open spec fn page_pivotee(
    avant: Seq<(u64, Objet)>,
    apres: Seq<(u64, Objet)>,
    pid: u64,
    rotation: int,
) -> bool {
    &&& cherche_spec(apres, pid) matches Some(np)
    &&& np matches Objet::Dictionnaire(ne)
    &&& cherche_spec(avant, pid) matches Some(ap)
    &&& ap matches Objet::Dictionnaire(ae)
    &&& valeur_cle(ne@, "Rotate"@) == Some(
        Objet::Entier(rotation_apres(rotation_de(avant, pid), rotation) as i64),
    )
    &&& memes_cles_sauf(ae@, ne@, "Rotate"@)
}

/// Deux noms de cles du modele, revelés une fois pour toutes.
pub proof fn lemma_cles_distinctes()
    ensures
        "Type"@ != "Rotate"@,
        "Type"@ != "CropBox"@,
        "Type"@ != "Parent"@,
        "Type"@ != "MediaBox"@,
        "Kids"@ != "Parent"@,
        "Count"@ != "Parent"@,
        "MediaBox"@ != "CropBox"@,
        "MediaBox"@ != "Rotate"@,
        "Parent"@ != "CropBox"@,
        "Parent"@ != "Rotate"@,
        "Type"@ != "Kids"@,
        "Type"@ != "Count"@,
        "Type"@ != "Pages"@,
        "Page"@ != "Pages"@,
        "Page"@ != "Catalog"@,
        "Pages"@ != "Catalog"@,
{
    reveal_strlit("Type");
    reveal_strlit("Rotate");
    reveal_strlit("MediaBox");
    reveal_strlit("Parent");
    reveal_strlit("CropBox");
    reveal_strlit("Kids");
    reveal_strlit("Count");
    reveal_strlit("Pages");
    reveal_strlit("Page");
    reveal_strlit("Catalog");
    assert("Type"@.len() == 4);
    assert("Rotate"@.len() == 6);
    assert("MediaBox"@.len() == 8);
    assert("Parent"@.len() == 6);
    assert("Parent"@[0] == 'P' && "Rotate"@[0] == 'R');
    assert("CropBox"@.len() == 7);
    assert("Kids"@.len() == 4);
    assert("Count"@.len() == 5);
    assert("Pages"@.len() == 5);
    assert("Page"@.len() == 4);
    assert("Catalog"@.len() == 7);
    assert("Type"@[0] == 'T' && "Kids"@[0] == 'K' && "Page"@[0] == 'P');
}

/// Dans un document bien forme, une page ne peut etre ni le catalogue ni
/// le noeud Pages : leurs entrees `Type` different.
pub proof fn lemma_page_ni_racine_ni_noeud(d: Document, pid: u64)
    requires
        bien_forme(d),
        est_dict_de_type(d.objets@, pid, "Page"@),
    ensures
        pid != d.racine,
        Some(pid) != id_pages(d),
{
    lemma_cles_distinctes();
}

/// Ajoute `rotation` degres, modulo 360, a la rotation de chaque page visee.
///
/// Seules les valeurs 90, 180 et 270 sont admises : toute autre laisse le
/// document tel quel et signale une erreur structurelle. L'effet est
/// additif : des appels repetes s'accumulent au lieu de se remplacer.
pub fn pdf_rotate(d: &mut Document, rotation: u16, pages_cibles: Option<&[u32]>) -> (r: Result<
    (),
    Erreur,
>)
    requires
        bien_forme(*old(d)),
    ensures
        match r {
            Ok(()) => {
                &&& (rotation == 90 || rotation == 180 || rotation == 270)
                &&& bien_forme(*final(d))
                &&& final(d).racine == old(d).racine
                &&& final(d).chiffrement == old(d).chiffrement
                &&& pages_spec(*final(d)) == pages_spec(*old(d))
                &&& forall|x: u64|
                    !pages_spec(*old(d)).contains(x) ==> #[trigger] cherche_spec(
                        final(d).objets@,
                        x,
                    ) == cherche_spec(old(d).objets@, x)
                &&& (pages_distinctes(*old(d)) ==> forall|k: int|
                    0 <= k < pages_spec(*old(d)).len() ==> {
                        let pid = #[trigger] pages_spec(*old(d))[k];
                        if cible_page(vue_cibles(pages_cibles), k + 1) {
                            page_pivotee(old(d).objets@, final(d).objets@, pid, rotation as int)
                        } else {
                            cherche_spec(final(d).objets@, pid) == cherche_spec(
                                old(d).objets@,
                                pid,
                            )
                        }
                    })
            },
            Err(e) => {
                &&& e == Erreur::Structurelle
                &&& !(rotation == 90 || rotation == 180 || rotation == 270)
                &&& *final(d) == *old(d)
            },
        },
{
    if !(rotation == 90 || rotation == 180 || rotation == 270) {
        return Err(Erreur::Structurelle);
    }
    let ghost d0 = *d;
    let pages = d.pages_ordonnees();
    let mut k: usize = 0;
    while k < pages.len()
        invariant
            pages@ == pages_spec(d0),
            bien_forme(d0),
            bien_forme(*d),
            rotation == 90 || rotation == 180 || rotation == 270,
            0 <= k <= pages@.len(),
            d.racine == d0.racine,
            d.chiffrement == d0.chiffrement,
            pages_spec(*d) == pages_spec(d0),
            forall|x: u64|
                !pages_spec(d0).contains(x) ==> #[trigger] cherche_spec(d.objets@, x)
                    == cherche_spec(d0.objets@, x),
            pages_distinctes(d0) ==> forall|j: int|
                k <= j < pages@.len() ==> #[trigger] cherche_spec(d.objets@, pages@[j])
                    == cherche_spec(d0.objets@, pages@[j]),
            pages_distinctes(d0) ==> forall|j: int|
                0 <= j < k ==> {
                    let pid = #[trigger] pages@[j];
                    if cible_page(vue_cibles(pages_cibles), j + 1) {
                        page_pivotee(d0.objets@, d.objets@, pid, rotation as int)
                    } else {
                        cherche_spec(d.objets@, pid) == cherche_spec(d0.objets@, pid)
                    }
                },
        decreases pages@.len() - k,
    {
        if est_cible(pages_cibles, k + 1) {
            let pid = pages[k];
            pivote_une_page(d, pid, rotation);
            proof {
                assert(pages_spec(*d) =~= pages_spec(d0));
            }
        }
        k = k + 1;
    }
    Ok(())
}

/// Fait pivoter une seule page, designee par son identite.
#[verifier::rlimit(60)]
fn pivote_une_page(d: &mut Document, pid: u64, rotation: u16)
    requires
        bien_forme(*old(d)),
        est_dict_de_type(old(d).objets@, pid, "Page"@),
        rotation == 90 || rotation == 180 || rotation == 270,
    ensures
        bien_forme(*final(d)),
        final(d).racine == old(d).racine,
        final(d).chiffrement == old(d).chiffrement,
        pages_spec(*final(d)) == pages_spec(*old(d)),
        forall|x: u64|
            x != pid ==> #[trigger] cherche_spec(final(d).objets@, x) == cherche_spec(
                old(d).objets@,
                x,
            ),
        page_pivotee(old(d).objets@, final(d).objets@, pid, rotation as int),
{
    let ghost d0 = *d;
    let actuel: i64 = match d.cherche(pid) {
        Some(Objet::Dictionnaire(e)) => match dict_obtenir(e, "Rotate") {
            Some(Objet::Entier(a)) => *a,
            _ => 0,
        },
        _ => {
            proof {
                assert(false);
            }
            0
        },
    };
    let mut base: i64 = actuel % 360;
    if base < 0 {
        base = base + 360;
    }
    let nv: i64 = (base + rotation as i64) % 360;
    proof {
        assert(nv as int == rotation_apres(actuel as int, rotation as int));
        assert(rotation_de(d0.objets@, pid) == actuel as int);
    }
    let mut entrees = match prend(d, pid) {
        Some(Objet::Dictionnaire(e)) => e,
        _ => {
            proof {
                assert(false);
            }
            Vec::new()
        },
    };
    let ghost anciennes = entrees@;
    dict_definir(&mut entrees, "Rotate", Objet::Entier(nv));
    let ghost nouvelles = entrees@;
    let present = d.remplace(pid, Objet::Dictionnaire(entrees));
    proof {
        lemma_cles_distinctes();
        assert(present);
        // Cloture : les references de la page retravaillee viennent des
        // anciennes entrees, toutes deja dans le domaine.
        assert forall|i: int, x: u64|
            0 <= i < d.objets@.len() && #[trigger] ref_de(d.objets@[i].1, x) implies contient_id(
            d.objets@,
            x,
        ) by {
            assert(contient_id(d.objets@, x) == contient_id(d0.objets@, x));
            if d.objets@[i] == d0.objets@[i] {
                assert(ref_de(d0.objets@[i].1, x));
            } else {
                let ne = d.objets@[i].1->Dictionnaire_0;
                assert(ne@ == nouvelles);
                let j = choose|j: int| 0 <= j < ne@.len() && ref_de(#[trigger] ne@[j].1, x);
                assert(ref_de(nouvelles[j].1, x));
                let vieille = cherche_spec(d0.objets@, pid)->Some_0;
                let ae = vieille->Dictionnaire_0;
                assert(ae@ == anciennes);
                assert(exists|jj: int|
                    0 <= jj < anciennes.len() && ref_de(#[trigger] anciennes[jj].1, x));
                assert(ref_de(vieille, x));
                lemma_cherche_indice(d0.objets@, pid);
                let ii = choose|ii: int|
                    0 <= ii < d0.objets@.len() && (#[trigger] d0.objets@[ii]).0 == pid
                        && cherche_spec(d0.objets@, pid) == Some(d0.objets@[ii].1);
                assert(ref_de(d0.objets@[ii].1, x));
            }
        }
        lemma_page_ni_racine_ni_noeud(d0, pid);
        assert(est_dict_de_type(d.objets@, d.racine, "Catalog"@));
        assert(id_pages(*d) == id_pages(d0));
        let p = id_pages(d0)->Some_0;
        assert(est_dict_de_type(d.objets@, p, "Pages"@));
        assert(kids_de(*d) == kids_de(d0));
        assert forall|k: int| 0 <= k < kids_de(d0).len() implies ((#[trigger] kids_de(d0)[k])
            matches Objet::Reference(r) && est_dict_de_type(d.objets@, r, "Page"@)) by {
            let r = kids_de(d0)[k]->Reference_0;
            if r != pid {
                assert(est_dict_de_type(d0.objets@, r, "Page"@));
            } else {
                assert(valeur_cle(nouvelles, "Type"@) == valeur_cle(anciennes, "Type"@));
            }
        }
        assert(pages_spec(*d) =~= pages_spec(d0));
    }
}

} // verus!

verus! {

/// Borne des coordonnees en milliemes : au-dela, la geometrie est tenue
/// pour irresoluble.
pub const BORNE_COORD: i64 = 1_000_000_000_000;

/// La valeur numerique d'un objet, en milliemes, si elle reste bornee.
pub open spec fn nombre_milli(o: Objet) -> Option<int> {
    match o {
        Objet::Entier(n) => if -(BORNE_COORD / 1000) <= n <= BORNE_COORD / 1000 {
            Some(n * 1000)
        } else {
            None
        },
        Objet::Reel(m) => if -BORNE_COORD <= m <= BORNE_COORD {
            Some(m as int)
        } else {
            None
        },
        _ => None,
    }
}

/// Un rectangle : quatre nombres bornes.
pub open spec fn boite_du_tableau(o: Objet) -> Option<(int, int, int, int)> {
    match o {
        Objet::Tableau(t) => if t@.len() == 4 && nombre_milli(t@[0]) is Some && nombre_milli(
            t@[1],
        ) is Some && nombre_milli(t@[2]) is Some && nombre_milli(t@[3]) is Some {
            Some(
                (
                    nombre_milli(t@[0])->Some_0,
                    nombre_milli(t@[1])->Some_0,
                    nombre_milli(t@[2])->Some_0,
                    nombre_milli(t@[3])->Some_0,
                ),
            )
        } else {
            None
        },
        _ => None,
    }
}

/// La valeur de `cle` dans le dictionnaire d'identite `id`, s'il en est un.
pub open spec fn cle_objet(objets: Seq<(u64, Objet)>, id: u64, cle: Seq<char>) -> Option<Objet> {
    match cherche_spec(objets, id) {
        Some(Objet::Dictionnaire(e)) => valeur_cle(e@, cle),
        _ => None,
    }
}

/// Le MediaBox effectif d'une page : le sien, sinon celui de son parent
/// immediat. Un seul niveau d'heritage est suivi.
pub open spec fn boite_de(objets: Seq<(u64, Objet)>, pid: u64) -> Option<(int, int, int, int)> {
    match cle_objet(objets, pid, "MediaBox"@) {
        Some(mb) => boite_du_tableau(mb),
        None => match cle_objet(objets, pid, "Parent"@) {
            Some(Objet::Reference(par)) => match cle_objet(objets, par, "MediaBox"@) {
                Some(mb) => boite_du_tableau(mb),
                _ => None,
            },
            _ => None,
        },
    }
}

/// Le rectangle recadre : origine deplacee et cotes reduits, chaque part
/// en pourcentage du MediaBox de la page.
pub open spec fn boite_recadree(b: (int, int, int, int), x: int, y: int, l: int, h: int) -> (
    int,
    int,
    int,
    int,
) {
    let largeur = b.2 - b.0;
    let hauteur = b.3 - b.1;
    let llx = b.0 + div_cent(largeur * x);
    let lly = b.1 + div_cent(hauteur * y);
    (llx, lly, llx + div_cent(largeur * l), lly + div_cent(hauteur * h))
}

/// La page `pid` du resultat porte le CropBox calcule, tout le reste egal.
pub open spec fn page_recadree(
    avant: Seq<(u64, Objet)>,
    apres: Seq<(u64, Objet)>,
    pid: u64,
    x: int,
    y: int,
    l: int,
    h: int,
) -> bool {
    &&& cherche_spec(apres, pid) matches Some(np)
    &&& np matches Objet::Dictionnaire(ne)
    &&& cherche_spec(avant, pid) matches Some(ap)
    &&& ap matches Objet::Dictionnaire(ae)
    &&& boite_de(avant, pid) matches Some(b)
    &&& (valeur_cle(ne@, "CropBox"@) matches Some(cb) && cb matches Objet::Tableau(t) && {
        let nb = boite_recadree(b, x, y, l, h);
        &&& t@.len() == 4
        &&& t@[0] matches Objet::Reel(v0) && v0 == nb.0
        &&& t@[1] matches Objet::Reel(v1) && v1 == nb.1
        &&& t@[2] matches Objet::Reel(v2) && v2 == nb.2
        &&& t@[3] matches Objet::Reel(v3) && v3 == nb.3
    })
    &&& memes_cles_sauf(ae@, ne@, "CropBox"@)
}

/// Le MediaBox effectif d'une page, en milliemes.
pub fn obtenir_mediabox(d: &Document, pid: u64) -> (r: Option<(i64, i64, i64, i64)>)
    ensures
        match r {
            Some(b) => boite_de(d.objets@, pid) == Some(
                (b.0 as int, b.1 as int, b.2 as int, b.3 as int),
            ),
            None => boite_de(d.objets@, pid) is None,
        },
{
    let propre = cle_de_page(d, pid, "MediaBox");
    match propre {
        Some(_) => lit_boite(propre),
        None => {
            match cle_de_page(d, pid, "Parent") {
                Some(Objet::Reference(par)) => {
                    let par = *par;
                    lit_boite(cle_de_page(d, par, "MediaBox"))
                },
                _ => None,
            }
        },
    }
}

/// La valeur de `cle` dans le dictionnaire d'identite `id`.
fn cle_de_page<'a>(d: &'a Document, id: u64, cle: &str) -> (r: Option<&'a Objet>)
    ensures
        match r {
            Some(o) => cle_objet(d.objets@, id, cle@) matches Some(oo) && *o == oo,
            None => cle_objet(d.objets@, id, cle@) is None,
        },
{
    match d.cherche(id) {
        Some(Objet::Dictionnaire(e)) => dict_obtenir(e, cle),
        _ => None,
    }
}

/// Lit un rectangle de quatre nombres bornes.
fn lit_boite(o: Option<&Objet>) -> (r: Option<(i64, i64, i64, i64)>)
    ensures
        match o {
            Some(oo) => match r {
                Some(b) => boite_du_tableau(*oo) == Some(
                    (b.0 as int, b.1 as int, b.2 as int, b.3 as int),
                ),
                None => boite_du_tableau(*oo) is None,
            },
            None => r is None,
        },
{
    let t = match o {
        Some(Objet::Tableau(t)) => t,
        _ => {
            return None;
        },
    };
    if t.len() != 4 {
        return None;
    }
    let v0 = lit_nombre(&t[0]);
    let v1 = lit_nombre(&t[1]);
    let v2 = lit_nombre(&t[2]);
    let v3 = lit_nombre(&t[3]);
    match (v0, v1, v2, v3) {
        (Some(a), Some(b), Some(c), Some(dd)) => Some((a, b, c, dd)),
        _ => None,
    }
}

/// Lit un nombre en milliemes, dans les bornes.
fn lit_nombre(o: &Objet) -> (r: Option<i64>)
    ensures
        match r {
            Some(v) => nombre_milli(*o) == Some(v as int),
            None => nombre_milli(*o) is None,
        },
{
    match o {
        Objet::Entier(n) => {
            let n = *n;
            if -(BORNE_COORD / 1000) <= n && n <= BORNE_COORD / 1000 {
                Some(n * 1000)
            } else {
                None
            }
        },
        Objet::Reel(m) => {
            let m = *m;
            if -BORNE_COORD <= m && m <= BORNE_COORD {
                Some(m)
            } else {
                None
            }
        },
        _ => None,
    }
}

} // verus!

verus! {

/// Division tronquee vers zero, comme celle de la machine.
pub open spec fn div_cent(a: int) -> int {
    if a >= 0 {
        a / 100
    } else {
        -((-a) / 100)
    }
}

/// Division d'un produit par cent, tronquee vers zero.
fn div_cent_exec(a: i64) -> (r: i64)
    requires
        -9_000_000_000_000_000 <= a <= 9_000_000_000_000_000,
    ensures
        r as int == div_cent(a as int),
{
    if a >= 0 {
        a / 100
    } else {
        -((-a) / 100)
    }
}

/// La geometrie (MediaBox et Parent de chaque dictionnaire) est la meme
/// dans les deux arenes.
pub open spec fn geometrie_conservee(avant: Seq<(u64, Objet)>, apres: Seq<(u64, Objet)>) -> bool {
    forall|q: u64|
        (#[trigger] cle_objet(apres, q, "MediaBox"@)) == cle_objet(avant, q, "MediaBox"@)
            && cle_objet(apres, q, "Parent"@) == cle_objet(avant, q, "Parent"@)
}

pub proof fn lemma_geometrie_boites(avant: Seq<(u64, Objet)>, apres: Seq<(u64, Objet)>)
    requires
        geometrie_conservee(avant, apres),
    ensures
        forall|pid: u64| #[trigger] boite_de(apres, pid) == boite_de(avant, pid),
{
}

} // verus!

verus! {

/// Recadre une seule page, designee par son identite, contre sa propre
/// geometrie.
fn recadre_une_page(d: &mut Document, pid: u64, x: u32, y: u32, l: u32, h: u32) -> (r: Result<
    (),
    Erreur,
>)
    requires
        bien_forme(*old(d)),
        est_dict_de_type(old(d).objets@, pid, "Page"@),
        x <= 100 && y <= 100 && l <= 100 && h <= 100,
    ensures
        bien_forme(*final(d)),
        final(d).racine == old(d).racine,
        final(d).chiffrement == old(d).chiffrement,
        pages_spec(*final(d)) == pages_spec(*old(d)),
        geometrie_conservee(old(d).objets@, final(d).objets@),
        match r {
            Ok(()) => {
                &&& boite_de(old(d).objets@, pid) is Some
                &&& forall|q: u64|
                    q != pid ==> #[trigger] cherche_spec(final(d).objets@, q) == cherche_spec(
                        old(d).objets@,
                        q,
                    )
                &&& page_recadree(
                    old(d).objets@,
                    final(d).objets@,
                    pid,
                    x as int,
                    y as int,
                    l as int,
                    h as int,
                )
            },
            Err(e) => {
                &&& e == Erreur::Structurelle
                &&& boite_de(old(d).objets@, pid) is None
                &&& *final(d) == *old(d)
            },
        },
{
    let ghost d0 = *d;
    let boite = match obtenir_mediabox(d, pid) {
        Some(b) => b,
        None => {
            return Err(Erreur::Structurelle);
        },
    };
    let (b0, b1, b2, b3) = boite;
    let largeur: i64 = b2 - b0;
    let hauteur: i64 = b3 - b1;
    proof {
        assert(-2_000_000_000_000 <= largeur <= 2_000_000_000_000);
        assert(-2_000_000_000_000 <= hauteur <= 2_000_000_000_000);
        assert(largeur * (x as i64) <= 2_000_000_000_000 * 100 && largeur * (x as i64)
            >= -2_000_000_000_000 * 100) by (nonlinear_arith)
            requires
                -2_000_000_000_000 <= largeur <= 2_000_000_000_000,
                0 <= x <= 100,
        ;
        assert(hauteur * (y as i64) <= 2_000_000_000_000 * 100 && hauteur * (y as i64)
            >= -2_000_000_000_000 * 100) by (nonlinear_arith)
            requires
                -2_000_000_000_000 <= hauteur <= 2_000_000_000_000,
                0 <= y <= 100,
        ;
        assert(largeur * (l as i64) <= 2_000_000_000_000 * 100 && largeur * (l as i64)
            >= -2_000_000_000_000 * 100) by (nonlinear_arith)
            requires
                -2_000_000_000_000 <= largeur <= 2_000_000_000_000,
                0 <= l <= 100,
        ;
        assert(hauteur * (h as i64) <= 2_000_000_000_000 * 100 && hauteur * (h as i64)
            >= -2_000_000_000_000 * 100) by (nonlinear_arith)
            requires
                -2_000_000_000_000 <= hauteur <= 2_000_000_000_000,
                0 <= h <= 100,
        ;
        assert(div_cent(largeur as int * x as int) <= 2_000_000_000_000 && div_cent(
            largeur as int * x as int,
        ) >= -2_000_000_000_000);
        assert(div_cent(hauteur as int * y as int) <= 2_000_000_000_000 && div_cent(
            hauteur as int * y as int,
        ) >= -2_000_000_000_000);
        assert(div_cent(largeur as int * l as int) <= 2_000_000_000_000 && div_cent(
            largeur as int * l as int,
        ) >= -2_000_000_000_000);
        assert(div_cent(hauteur as int * h as int) <= 2_000_000_000_000 && div_cent(
            hauteur as int * h as int,
        ) >= -2_000_000_000_000);
    }
    let llx: i64 = b0 + div_cent_exec(largeur * (x as i64));
    let lly: i64 = b1 + div_cent_exec(hauteur * (y as i64));
    let urx: i64 = llx + div_cent_exec(largeur * (l as i64));
    let ury: i64 = lly + div_cent_exec(hauteur * (h as i64));
    let mut cadre: Vec<Objet> = Vec::new();
    cadre.push(Objet::Reel(llx));
    cadre.push(Objet::Reel(lly));
    cadre.push(Objet::Reel(urx));
    cadre.push(Objet::Reel(ury));
    let ghost gcadre = cadre@;
    proof {
        assert(gcadre.len() == 4);
        assert(gcadre[0] == Objet::Reel(llx) && gcadre[1] == Objet::Reel(lly) && gcadre[2]
            == Objet::Reel(urx) && gcadre[3] == Objet::Reel(ury));
    }
    let mut entrees = match prend(d, pid) {
        Some(Objet::Dictionnaire(e)) => e,
        _ => {
            proof {
                assert(false);
            }
            Vec::new()
        },
    };
    let ghost anciennes = entrees@;
    dict_definir(&mut entrees, "CropBox", Objet::Tableau(cadre));
    let ghost nouvelles = entrees@;
    let ghost ncadre = valeur_cle(nouvelles, "CropBox"@)->Some_0;
    let present = d.remplace(pid, Objet::Dictionnaire(entrees));
    proof {
        lemma_cles_distinctes();
        assert(present);
        assert forall|i: int, xx: u64|
            0 <= i < d.objets@.len() && #[trigger] ref_de(d.objets@[i].1, xx) implies contient_id(
            d.objets@,
            xx,
        ) by {
            assert(contient_id(d.objets@, xx) == contient_id(d0.objets@, xx));
            if d.objets@[i] == d0.objets@[i] {
                assert(ref_de(d0.objets@[i].1, xx));
            } else {
                let ne = d.objets@[i].1->Dictionnaire_0;
                assert(ne@ == nouvelles);
                let j = choose|j: int| 0 <= j < ne@.len() && ref_de(#[trigger] ne@[j].1, xx);
                assert(ref_de(nouvelles[j].1, xx));
                assert(!ref_de(ncadre, xx)) by {
                    assert(ncadre->Tableau_0@ == gcadre);
                    assert forall|jj: int| 0 <= jj < gcadre.len() implies !ref_de(
                        #[trigger] gcadre[jj],
                        xx,
                    ) by {
                        assert(gcadre[jj] is Reel);
                    }
                }
                let vieille = cherche_spec(d0.objets@, pid)->Some_0;
                let ae = vieille->Dictionnaire_0;
                assert(ae@ == anciennes);
                assert(exists|jj: int|
                    0 <= jj < anciennes.len() && ref_de(#[trigger] anciennes[jj].1, xx));
                assert(ref_de(vieille, xx));
                lemma_cherche_indice(d0.objets@, pid);
                let ii = choose|ii: int|
                    0 <= ii < d0.objets@.len() && (#[trigger] d0.objets@[ii]).0 == pid
                        && cherche_spec(d0.objets@, pid) == Some(d0.objets@[ii].1);
                assert(ref_de(d0.objets@[ii].1, xx));
            }
        }
        lemma_page_ni_racine_ni_noeud(d0, pid);
        assert(est_dict_de_type(d.objets@, d.racine, "Catalog"@));
        assert(id_pages(*d) == id_pages(d0));
        let p = id_pages(d0)->Some_0;
        assert(est_dict_de_type(d.objets@, p, "Pages"@));
        assert(kids_de(*d) == kids_de(d0));
        assert forall|k: int| 0 <= k < kids_de(d0).len() implies ((#[trigger] kids_de(d0)[k])
            matches Objet::Reference(rr) && est_dict_de_type(d.objets@, rr, "Page"@)) by {
            let rr = kids_de(d0)[k]->Reference_0;
            if rr != pid {
                assert(est_dict_de_type(d0.objets@, rr, "Page"@));
            } else {
                assert(valeur_cle(nouvelles, "Type"@) == valeur_cle(anciennes, "Type"@));
            }
        }
        assert(pages_spec(*d) =~= pages_spec(d0));
        assert(geometrie_conservee(d0.objets@, d.objets@)) by {
            assert forall|q: u64|
                (#[trigger] cle_objet(d.objets@, q, "MediaBox"@)) == cle_objet(
                    d0.objets@,
                    q,
                    "MediaBox"@,
                ) && cle_objet(d.objets@, q, "Parent"@) == cle_objet(d0.objets@, q, "Parent"@) by {
                if q == pid {
                    assert(valeur_cle(nouvelles, "MediaBox"@) == valeur_cle(
                        anciennes,
                        "MediaBox"@,
                    ));
                    assert(valeur_cle(nouvelles, "Parent"@) == valeur_cle(anciennes, "Parent"@));
                }
            }
        }
        assert(page_recadree(
            d0.objets@,
            d.objets@,
            pid,
            x as int,
            y as int,
            l as int,
            h as int,
        )) by {
            assert(cherche_spec(d.objets@, pid) matches Some(np) && np == Objet::Dictionnaire(
                entrees,
            ));
            assert(ncadre matches Objet::Tableau(t) && t@.len() == 4);
        }
    }
    Ok(())
}

/// Pose sur chaque page visee un CropBox calcule en pourcentages de son
/// MediaBox propre ou herite. Une page visee sans geometrie resoluble
/// interrompt le travail avec une erreur structurelle.
#[verifier::loop_isolation(false)]
pub fn pdf_crop(
    d: &mut Document,
    x_pct: u32,
    y_pct: u32,
    l_pct: u32,
    h_pct: u32,
    pages_cibles: Option<&[u32]>,
) -> (r: Result<(), Erreur>)
    requires
        bien_forme(*old(d)),
        x_pct <= 100 && y_pct <= 100 && l_pct <= 100 && h_pct <= 100,
    ensures
        bien_forme(*final(d)),
        final(d).racine == old(d).racine,
        final(d).chiffrement == old(d).chiffrement,
        pages_spec(*final(d)) == pages_spec(*old(d)),
        match r {
            Ok(()) => {
                &&& forall|k: int|
                    0 <= k < pages_spec(*old(d)).len() && cible_page(
                        vue_cibles(pages_cibles),
                        k + 1,
                    ) ==> boite_de(old(d).objets@, #[trigger] pages_spec(*old(d))[k]) is Some
                &&& forall|xx: u64|
                    !pages_spec(*old(d)).contains(xx) ==> #[trigger] cherche_spec(
                        final(d).objets@,
                        xx,
                    ) == cherche_spec(old(d).objets@, xx)
                &&& (pages_distinctes(*old(d)) ==> forall|k: int|
                    0 <= k < pages_spec(*old(d)).len() ==> {
                        let pid = #[trigger] pages_spec(*old(d))[k];
                        if cible_page(vue_cibles(pages_cibles), k + 1) {
                            page_recadree(
                                old(d).objets@,
                                final(d).objets@,
                                pid,
                                x_pct as int,
                                y_pct as int,
                                l_pct as int,
                                h_pct as int,
                            )
                        } else {
                            cherche_spec(final(d).objets@, pid) == cherche_spec(
                                old(d).objets@,
                                pid,
                            )
                        }
                    })
            },
            Err(e) => {
                &&& e == Erreur::Structurelle
                &&& exists|k: int|
                    0 <= k < pages_spec(*old(d)).len() && cible_page(
                        vue_cibles(pages_cibles),
                        k + 1,
                    ) && boite_de(old(d).objets@, #[trigger] pages_spec(*old(d))[k]) is None
            },
        },
{
    let ghost d0 = *d;
    let pages = d.pages_ordonnees();
    let mut k: usize = 0;
    while k < pages.len()
        invariant
            pages@ == pages_spec(d0),
            bien_forme(d0),
            bien_forme(*d),
            x_pct <= 100 && y_pct <= 100 && l_pct <= 100 && h_pct <= 100,
            0 <= k <= pages@.len(),
            d.racine == d0.racine,
            d.chiffrement == d0.chiffrement,
            pages_spec(*d) == pages_spec(d0),
            geometrie_conservee(d0.objets@, d.objets@),
            forall|j: int|
                0 <= j < k && cible_page(vue_cibles(pages_cibles), j + 1) ==> boite_de(
                    d0.objets@,
                    #[trigger] pages@[j],
                ) is Some,
            forall|xx: u64|
                !pages_spec(d0).contains(xx) ==> #[trigger] cherche_spec(d.objets@, xx)
                    == cherche_spec(d0.objets@, xx),
            pages_distinctes(d0) ==> forall|j: int|
                k <= j < pages@.len() ==> #[trigger] cherche_spec(d.objets@, pages@[j])
                    == cherche_spec(d0.objets@, pages@[j]),
            pages_distinctes(d0) ==> forall|j: int|
                0 <= j < k ==> {
                    let pid = #[trigger] pages@[j];
                    if cible_page(vue_cibles(pages_cibles), j + 1) {
                        page_recadree(
                            d0.objets@,
                            d.objets@,
                            pid,
                            x_pct as int,
                            y_pct as int,
                            l_pct as int,
                            h_pct as int,
                        )
                    } else {
                        cherche_spec(d.objets@, pid) == cherche_spec(d0.objets@, pid)
                    }
                },
        decreases pages@.len() - k,
    {
        if est_cible(pages_cibles, k + 1) {
            let pid = pages[k];
            let ghost avant = *d;
            let r = recadre_une_page(d, pid, x_pct, y_pct, l_pct, h_pct);
            proof {
                lemma_geometrie_boites(avant.objets@, d.objets@);
                lemma_geometrie_boites(d0.objets@, avant.objets@);
                assert(pages_spec(*d) =~= pages_spec(d0));
            }
            if r.is_err() {
                proof {
                    assert(boite_de(avant.objets@, pid) is None);
                    assert(boite_de(d0.objets@, pid) is None);
                    assert((k as int) < pages_spec(d0).len() && cible_page(
                        vue_cibles(pages_cibles),
                        k as int + 1,
                    ) && boite_de(d0.objets@, pages_spec(d0)[k as int]) is None);
                }
                return Err(Erreur::Structurelle);
            }
            proof {
                assert(boite_de(avant.objets@, pid) is Some);
                assert(boite_de(d0.objets@, pid) is Some);
                if pages_distinctes(d0) {
                    assert(cherche_spec(avant.objets@, pid) == cherche_spec(d0.objets@, pid));
                    assert(page_recadree(
                        d0.objets@,
                        d.objets@,
                        pid,
                        x_pct as int,
                        y_pct as int,
                        l_pct as int,
                        h_pct as int,
                    )) by {
                        assert(page_recadree(
                            avant.objets@,
                            d.objets@,
                            pid,
                            x_pct as int,
                            y_pct as int,
                            l_pct as int,
                            h_pct as int,
                        ));
                        assert(rotation_de(avant.objets@, pid) == rotation_de(d0.objets@, pid));
                    }
                }
            }
        }
        k = k + 1;
    }
    Ok(())
}

} // verus!

verus! {

/// L'identite du noeud Pages d'un document bien forme.
pub fn id_noeud_pages(d: &Document) -> (r: u64)
    requires
        bien_forme(*d),
    ensures
        id_pages(*d) == Some(r),
{
    match d.cherche(d.racine) {
        Some(Objet::Dictionnaire(c)) => match dict_obtenir(c, "Pages") {
            Some(Objet::Reference(p)) => *p,
            _ => {
                proof {
                    assert(false);
                }
                0
            },
        },
        _ => {
            proof {
                assert(false);
            }
            0
        },
    }
}

/// Rebatit les enfants du noeud Pages selon `nouvel_ordre` (positions a
/// partir de 1, sous-ensemble ou permutation, repetitions admises) et
/// remet Count d'accord. Toute position hors limites est refusee.
#[verifier::loop_isolation(false)]
pub fn pdf_organiser(d: &mut Document, nouvel_ordre: &[u32]) -> (r: Result<(), Erreur>)
    requires
        bien_forme(*old(d)),
        nouvel_ordre@.len() <= u32::MAX as int,
    ensures
        final(d).racine == old(d).racine,
        final(d).chiffrement == old(d).chiffrement,
        match r {
            Ok(()) => {
                &&& forall|i: int|
                    0 <= i < nouvel_ordre@.len() ==> 1 <= (#[trigger] nouvel_ordre@[i]) as int
                        <= pages_spec(*old(d)).len()
                &&& bien_forme(*final(d))
                &&& pages_spec(*final(d)) =~= nouvel_ordre@.map_values(
                    |n: u32| pages_spec(*old(d))[n as int - 1],
                )
                &&& forall|x: u64|
                    Some(x) != id_pages(*old(d)) ==> #[trigger] cherche_spec(final(d).objets@, x)
                        == cherche_spec(old(d).objets@, x)
            },
            Err(e) => {
                &&& e == Erreur::Structurelle
                &&& *final(d) == *old(d)
                &&& exists|i: int|
                    0 <= i < nouvel_ordre@.len() && !(1 <= (#[trigger] nouvel_ordre@[i]) as int
                        <= pages_spec(*old(d)).len())
            },
        },
{
    let ghost d0 = *d;
    let pages = d.pages_ordonnees();
    let mut i: usize = 0;
    while i < nouvel_ordre.len()
        invariant
            0 <= i <= nouvel_ordre@.len(),
            forall|j: int|
                0 <= j < i ==> 1 <= (#[trigger] nouvel_ordre@[j]) as int <= pages@.len(),
        decreases nouvel_ordre@.len() - i,
    {
        let n = nouvel_ordre[i];
        if n == 0 || n as usize > pages.len() {
            proof {
                assert(!(1 <= (nouvel_ordre@[i as int]) as int <= pages_spec(d0).len()));
            }
            return Err(Erreur::Structurelle);
        }
        i = i + 1;
    }
    let mut kids: Vec<Objet> = Vec::new();
    let mut j: usize = 0;
    while j < nouvel_ordre.len()
        invariant
            0 <= j <= nouvel_ordre@.len(),
            kids@.len() == j,
            forall|q: int|
                0 <= q < j ==> (#[trigger] kids@[q]) == Objet::Reference(
                    pages@[nouvel_ordre@[q] as int - 1],
                ),
        decreases nouvel_ordre@.len() - j,
    {
        let n = nouvel_ordre[j];
        kids.push(Objet::Reference(pages[n as usize - 1]));
        j = j + 1;
    }
    let ghost gkids = kids@;
    let total: i64 = kids.len() as i64;
    let p = id_noeud_pages(d);
    let mut entrees = match prend(d, p) {
        Some(Objet::Dictionnaire(e)) => e,
        _ => {
            proof {
                assert(false);
            }
            Vec::new()
        },
    };
    let ghost anciennes = entrees@;
    dict_definir(&mut entrees, "Kids", Objet::Tableau(kids));
    dict_definir(&mut entrees, "Count", Objet::Entier(total));
    let ghost nouvelles = entrees@;
    let present = d.remplace(p, Objet::Dictionnaire(entrees));
    proof {
        lemma_cles_distinctes();
        assert(present);
        let gtableau = valeur_cle(nouvelles, "Kids"@)->Some_0;
        assert(gtableau->Tableau_0@ == gkids);
        // Cloture : les nouvelles references sont des pages de l'origine.
        assert forall|ii: int, xx: u64|
            0 <= ii < d.objets@.len() && #[trigger] ref_de(d.objets@[ii].1, xx) implies
            contient_id(d.objets@, xx) by {
            assert(contient_id(d.objets@, xx) == contient_id(d0.objets@, xx));
            if d.objets@[ii] == d0.objets@[ii] {
                assert(ref_de(d0.objets@[ii].1, xx));
            } else {
                let ne = d.objets@[ii].1->Dictionnaire_0;
                assert(ne@ == nouvelles);
                let jj = choose|jj: int| 0 <= jj < ne@.len() && ref_de(#[trigger] ne@[jj].1, xx);
                assert(ref_de(nouvelles[jj].1, xx));
                if ref_de(gtableau, xx) {
                    let q = choose|q: int| 0 <= q < gkids.len() && ref_de(#[trigger] gkids[q], xx);
                    assert(gkids[q] == Objet::Reference(pages@[nouvel_ordre@[q] as int - 1]));
                    assert(xx == pages@[nouvel_ordre@[q] as int - 1]);
                    assert(est_dict_de_type(d0.objets@, xx, "Page"@));
                    assert(contient_id(d0.objets@, xx));
                } else if !ref_de(Objet::Entier(total), xx) {
                    let vieille = cherche_spec(d0.objets@, p)->Some_0;
                    let ae = vieille->Dictionnaire_0;
                    assert(ae@ == anciennes);
                    assert(exists|qq: int|
                        0 <= qq < anciennes.len() && ref_de(#[trigger] anciennes[qq].1, xx));
                    assert(ref_de(vieille, xx));
                    lemma_cherche_indice(d0.objets@, p);
                    let kk = choose|kk: int|
                        0 <= kk < d0.objets@.len() && (#[trigger] d0.objets@[kk]).0 == p
                            && cherche_spec(d0.objets@, p) == Some(d0.objets@[kk].1);
                    assert(ref_de(d0.objets@[kk].1, xx));
                }
            }
        }
        // L'arbre des pages : le catalogue est intact, le noeud Pages garde
        // son Type, et les nouveaux enfants sont des pages de l'origine.
        assert(d.racine != p) by {
            assert(est_dict_de_type(d0.objets@, d0.racine, "Catalog"@));
            assert(est_dict_de_type(d0.objets@, p, "Pages"@));
        }
        assert(est_dict_de_type(d.objets@, d.racine, "Catalog"@));
        assert(id_pages(*d) == Some(p));
        assert(est_dict_de_type(d.objets@, p, "Pages"@)) by {
            assert(valeur_cle(nouvelles, "Type"@) == valeur_cle(anciennes, "Type"@));
        }
        assert(valeur_cle(nouvelles, "Count"@) == Some(Objet::Entier(total)));
        assert forall|k: int| 0 <= k < gkids.len() implies ((#[trigger] gkids[k])
            matches Objet::Reference(rr) && est_dict_de_type(d.objets@, rr, "Page"@)) by {
            let rr = pages@[nouvel_ordre@[k] as int - 1];
            assert(gkids[k] == Objet::Reference(rr));
            assert(est_dict_de_type(d0.objets@, rr, "Page"@));
            lemma_page_ni_racine_ni_noeud(d0, rr);
            assert(cherche_spec(d.objets@, rr) == cherche_spec(d0.objets@, rr));
        }
        assert(kids_de(*d) == gkids);
        assert(pages_spec(*d) =~= nouvel_ordre@.map_values(
            |n: u32| pages_spec(d0)[n as int - 1],
        ));
        assert(ids_bornes(d.objets@)) by {
            assert forall|ii: int| 0 <= ii < d.objets@.len() implies 1 <= (
            #[trigger] d.objets@[ii].0) < crate::modele::BORNE_ID by {
                assert(d.objets@[ii].0 == d0.objets@[ii].0);
            }
        }
    }
    Ok(())
}

/// Les positions de pages (a partir de 1) qui survivent a une suppression.
pub open spec fn positions_gardees(total: int, supprimes: Seq<u32>) -> Seq<u32>
    decreases total,
{
    if total <= 0 {
        Seq::empty()
    } else if supprimes.contains(total as u32) {
        positions_gardees(total - 1, supprimes)
    } else {
        positions_gardees(total - 1, supprimes).push(total as u32)
    }
}

/// Retire les pages listees (positions a partir de 1), l'ordre des autres
/// conserve. Retirer toutes les pages est refuse.
#[verifier::loop_isolation(false)]
pub fn pdf_supprimer_pages(d: &mut Document, pages_a_supprimer: &[u32]) -> (r: Result<
    (),
    Erreur,
>)
    requires
        bien_forme(*old(d)),
        nombre_pages(*old(d)) <= u32::MAX as int,
    ensures
        final(d).racine == old(d).racine,
        final(d).chiffrement == old(d).chiffrement,
        match r {
            Ok(()) => {
                &&& bien_forme(*final(d))
                &&& positions_gardees(nombre_pages(*old(d)), pages_a_supprimer@).len() >= 1
                &&& pages_spec(*final(d)) =~= positions_gardees(
                    nombre_pages(*old(d)),
                    pages_a_supprimer@,
                ).map_values(|n: u32| pages_spec(*old(d))[n as int - 1])
                &&& forall|x: u64|
                    Some(x) != id_pages(*old(d)) ==> #[trigger] cherche_spec(final(d).objets@, x)
                        == cherche_spec(old(d).objets@, x)
            },
            Err(e) => {
                &&& e == Erreur::Structurelle
                &&& *final(d) == *old(d)
                &&& positions_gardees(nombre_pages(*old(d)), pages_a_supprimer@).len() == 0
            },
        },
{
    let ghost d0 = *d;
    let pages = d.pages_ordonnees();
    let total: usize = pages.len();
    let mut garder: Vec<u32> = Vec::new();
    let mut n: usize = 0;
    while n < total
        invariant
            0 <= n <= total,
            garder@ =~= positions_gardees(n as int, pages_a_supprimer@),
        decreases total - n,
    {
        let position = n + 1;
        if !contient_u32(pages_a_supprimer, position as u32) {
            garder.push(position as u32);
        }
        proof {
            assert(garder@ =~= positions_gardees(n as int + 1, pages_a_supprimer@));
        }
        n = n + 1;
    }
    if garder.len() == 0 {
        return Err(Erreur::Structurelle);
    }
    let ghost ggarder = garder@;
    proof {
        lemma_positions_bornees(total as int, pages_a_supprimer@);
    }
    let r = pdf_organiser(d, garder.as_slice());
    proof {
        assert forall|i: int| 0 <= i < ggarder.len() implies 1 <= (#[trigger] ggarder[i]) as int
            <= pages_spec(d0).len() by {
            lemma_positions_bornees(total as int, pages_a_supprimer@);
        }
        assert(r is Ok);
    }
    Ok(())
}

/// Toute position gardee est dans [1, total], et il y en a au plus `total`.
pub proof fn lemma_positions_bornees(total: int, supprimes: Seq<u32>)
    requires
        0 <= total <= u32::MAX as int,
    ensures
        positions_gardees(total, supprimes).len() <= total,
        forall|i: int|
            0 <= i < positions_gardees(total, supprimes).len() ==> 1 <= (
            #[trigger] positions_gardees(total, supprimes)[i]) as int <= total,
    decreases total,
{
    if total > 0 {
        lemma_positions_bornees(total - 1, supprimes);
        let avant = positions_gardees(total - 1, supprimes);
        let apres = positions_gardees(total, supprimes);
        assert forall|i: int| 0 <= i < apres.len() implies 1 <= (#[trigger] apres[i]) as int
            <= total by {
            if !supprimes.contains(total as u32) && i == apres.len() - 1 {
                assert(apres[i] == total as u32);
            } else {
                assert(apres[i] == avant[i]);
            }
        }
    }
}

/// La valeur est-elle dans la liste ?
pub fn contient_u32(liste: &[u32], v: u32) -> (r: bool)
    ensures
        r == liste@.contains(v),
{
    let mut i: usize = 0;
    while i < liste.len()
        invariant
            0 <= i <= liste@.len(),
            forall|j: int| 0 <= j < i ==> (#[trigger] liste@[j]) != v,
        decreases liste@.len() - i,
    {
        if liste[i] == v {
            proof {
                assert(liste@[i as int] == v);
            }
            return true;
        }
        i = i + 1;
    }
    proof {
        assert(!liste@.contains(v));
    }
    false
}

} // verus!

verus! {

/// Les bits de droits d'un PDF chiffre : impression (et impression en
/// haute qualite), copie (et copie pour l'accessibilite), chacun pose
/// seulement si le drapeau correspondant l'est.
pub fn bits_permissions(impression: bool, copie: bool) -> (r: u64)
    ensures
        r == (if impression {
            2052int
        } else {
            0int
        }) + (if copie {
            528int
        } else {
            0int
        }),
{
    let mut bits: u64 = 0;
    if impression {
        bits = bits + 4 + 2048;
    }
    if copie {
        bits = bits + 16 + 512;
    }
    bits
}

/// Le mot de passe ouvre-t-il ce parametrage : celui du proprietaire ou
/// celui de l'utilisateur ?
pub open spec fn mdp_accepte(c: Chiffrement, mdp: Seq<char>) -> bool {
    c.proprietaire@ == mdp || c.utilisateur@ == mdp
}

/// Retient le parametrage de chiffrement (AES-128, version 4) que la
/// sauvegarde realisera : mots de passe du proprietaire et de
/// l'utilisateur, droits d'impression et de copie.
pub fn pdf_proteger(d: &mut Document, proprietaire: &str, utilisateur: &str, impression: bool, copie: bool)
    ensures
        final(d).objets == old(d).objets,
        final(d).racine == old(d).racine,
        final(d).chiffrement matches Some(c) && c.proprietaire@ == proprietaire@
            && c.utilisateur@ == utilisateur@ && c.impression == impression && c.copie == copie,
{
    d.chiffrement = Some(
        Chiffrement {
            proprietaire: proprietaire.to_owned(),
            utilisateur: utilisateur.to_owned(),
            impression,
            copie,
        },
    );
}

/// Tente d'oter la protection. Un document non chiffre est rendu tel quel ;
/// un mot de passe qui n'est ni celui du proprietaire ni celui de
/// l'utilisateur echoue avec une erreur de chiffrement.
pub fn pdf_dechiffrer(d: &mut Document, mot_de_passe: &str) -> (r: Result<(), Erreur>)
    ensures
        final(d).objets == old(d).objets,
        final(d).racine == old(d).racine,
        match r {
            Ok(()) => {
                &&& final(d).chiffrement is None
                &&& match old(d).chiffrement {
                    Some(c) => mdp_accepte(c, mot_de_passe@),
                    None => true,
                }
            },
            Err(e) => {
                &&& e == Erreur::Chiffrement
                &&& *final(d) == *old(d)
                &&& old(d).chiffrement matches Some(c) && !mdp_accepte(c, mot_de_passe@)
            },
        },
{
    let accepte = match &d.chiffrement {
        None => true,
        Some(c) => c.proprietaire.as_str().eq(mot_de_passe) || c.utilisateur.as_str().eq(
            mot_de_passe,
        ),
    };
    if accepte {
        d.chiffrement = None;
        Ok(())
    } else {
        Err(Erreur::Chiffrement)
    }
}

} // verus!

verus! {

/// Apres collecte, la sortie contient exactement ce qu'elle contenait et
/// les references de l'objet.
pub open spec fn refs_ajoutees(avant: Seq<u64>, apres: Seq<u64>, o: Objet) -> bool {
    forall|x: u64|
        #![trigger apres.contains(x)]
        #![trigger ref_de(o, x)]
        apres.contains(x) <==> (avant.contains(x) || ref_de(o, x))
}

/// Ajoute a `sortie` chaque identite que `o` reference, a toute
/// profondeur.
#[verifier::loop_isolation(false)]
pub fn pousse_refs(o: &Objet, sortie: &mut Vec<u64>)
    ensures
        refs_ajoutees(old(sortie)@, final(sortie)@, *o),
    decreases *o,
{
    match o {
        Objet::Reference(id) => {
            sortie.push(*id);
            proof {
                assert forall|x: u64|
                    #![trigger sortie@.contains(x)]
                    #![trigger ref_de(*o, x)]
                    sortie@.contains(x) <==> (old(sortie)@.contains(x) || ref_de(*o, x)) by {
                    if sortie@.contains(x) {
                        let j = choose|j: int| 0 <= j < sortie@.len() && sortie@[j] == x;
                        if j < old(sortie)@.len() {
                            assert(old(sortie)@[j] == x);
                        }
                    }
                    if old(sortie)@.contains(x) {
                        let j = choose|j: int| 0 <= j < old(sortie)@.len() && old(sortie)@[j] == x;
                        assert(sortie@[j] == x);
                    }
                    if ref_de(*o, x) {
                        assert(sortie@[old(sortie)@.len() as int] == x);
                    }
                }
                assert(refs_ajoutees(old(sortie)@, sortie@, *o));
            }
        },
        Objet::Tableau(t) => {
            proof {
                assert(decreases_to!(*o => o->Tableau_0));
            }
            let mut i: usize = 0;
            while i < t.len()
                invariant
                    0 <= i <= t@.len(),
                    forall|x: u64|
                        sortie@.contains(x) <==> (old(sortie)@.contains(x) || exists|j: int|
                            0 <= j < i && ref_de(#[trigger] t@[j], x)),
                decreases t@.len() - i,
            {
                proof {
                    assert(decreases_to!(*t => t[i as int]));
                    assert(decreases_to!(*o => t[i as int]));
                }
                let ghost connu = sortie@;
                let element = &t[i];
                pousse_refs(element, sortie);
                proof {
                    assert(*element == t@[i as int]);
                    assert forall|x: u64|
                        sortie@.contains(x) <==> (old(sortie)@.contains(x) || exists|j: int|
                            0 <= j < i + 1 && ref_de(#[trigger] t@[j], x)) by {
                        if sortie@.contains(x) {
                            assert(connu.contains(x) || ref_de(*element, x));
                            assert(connu.contains(x) || ref_de(t@[i as int], x));
                        } else {
                            assert(!ref_de(*element, x));
                        }
                        if exists|j: int| 0 <= j < i + 1 && ref_de(#[trigger] t@[j], x) {
                            let j = choose|j: int| 0 <= j < i + 1 && ref_de(#[trigger] t@[j], x);
                            if j < i {
                                assert(connu.contains(x));
                            } else {
                                assert(ref_de(t@[i as int], x));
                            }
                        }
                    }
                }
                i = i + 1;
            }
            proof {
                assert forall|x: u64|
                    #![trigger sortie@.contains(x)]
                    #![trigger ref_de(*o, x)]
                    sortie@.contains(x) <==> (old(sortie)@.contains(x) || ref_de(*o, x)) by {}
                assert(refs_ajoutees(old(sortie)@, sortie@, *o));
            }
        },
        Objet::Dictionnaire(e) => {
            proof {
                assert(decreases_to!(*o => o->Dictionnaire_0));
            }
            let mut i: usize = 0;
            while i < e.len()
                invariant
                    0 <= i <= e@.len(),
                    forall|x: u64|
                        sortie@.contains(x) <==> (old(sortie)@.contains(x) || exists|j: int|
                            0 <= j < i && ref_de(#[trigger] e@[j].1, x)),
                decreases e@.len() - i,
            {
                proof {
                    assert(decreases_to!(*e => e[i as int]));
                    assert(decreases_to!(e[i as int] => e[i as int].1));
                    assert(decreases_to!(*o => e[i as int].1));
                }
                let ghost connu = sortie@;
                let element = &e[i].1;
                pousse_refs(element, sortie);
                proof {
                    assert(*element == e@[i as int].1);
                    assert forall|x: u64|
                        sortie@.contains(x) <==> (old(sortie)@.contains(x) || exists|j: int|
                            0 <= j < i + 1 && ref_de(#[trigger] e@[j].1, x)) by {
                        if sortie@.contains(x) {
                            assert(connu.contains(x) || ref_de(*element, x));
                            assert(connu.contains(x) || ref_de(e@[i as int].1, x));
                        } else {
                            assert(!ref_de(*element, x));
                        }
                        if exists|j: int| 0 <= j < i + 1 && ref_de(#[trigger] e@[j].1, x) {
                            let j = choose|j: int|
                                0 <= j < i + 1 && ref_de(#[trigger] e@[j].1, x);
                            if j < i {
                                assert(connu.contains(x));
                            } else {
                                assert(ref_de(e@[i as int].1, x));
                            }
                        }
                    }
                }
                i = i + 1;
            }
            proof {
                assert forall|x: u64|
                    #![trigger sortie@.contains(x)]
                    #![trigger ref_de(*o, x)]
                    sortie@.contains(x) <==> (old(sortie)@.contains(x) || ref_de(*o, x)) by {}
                assert(refs_ajoutees(old(sortie)@, sortie@, *o));
            }
        },
        Objet::Flux(e, _) => {
            proof {
                assert(decreases_to!(*o => o->Flux_0));
            }
            let mut i: usize = 0;
            while i < e.len()
                invariant
                    0 <= i <= e@.len(),
                    forall|x: u64|
                        sortie@.contains(x) <==> (old(sortie)@.contains(x) || exists|j: int|
                            0 <= j < i && ref_de(#[trigger] e@[j].1, x)),
                decreases e@.len() - i,
            {
                proof {
                    assert(decreases_to!(*e => e[i as int]));
                    assert(decreases_to!(e[i as int] => e[i as int].1));
                    assert(decreases_to!(*o => e[i as int].1));
                }
                let ghost connu = sortie@;
                let element = &e[i].1;
                pousse_refs(element, sortie);
                proof {
                    assert(*element == e@[i as int].1);
                    assert forall|x: u64|
                        sortie@.contains(x) <==> (old(sortie)@.contains(x) || exists|j: int|
                            0 <= j < i + 1 && ref_de(#[trigger] e@[j].1, x)) by {
                        if sortie@.contains(x) {
                            assert(connu.contains(x) || ref_de(*element, x));
                            assert(connu.contains(x) || ref_de(e@[i as int].1, x));
                        } else {
                            assert(!ref_de(*element, x));
                        }
                        if exists|j: int| 0 <= j < i + 1 && ref_de(#[trigger] e@[j].1, x) {
                            let j = choose|j: int|
                                0 <= j < i + 1 && ref_de(#[trigger] e@[j].1, x);
                            if j < i {
                                assert(connu.contains(x));
                            } else {
                                assert(ref_de(e@[i as int].1, x));
                            }
                        }
                    }
                }
                i = i + 1;
            }
            proof {
                assert forall|x: u64|
                    #![trigger sortie@.contains(x)]
                    #![trigger ref_de(*o, x)]
                    sortie@.contains(x) <==> (old(sortie)@.contains(x) || ref_de(*o, x)) by {}
                assert(refs_ajoutees(old(sortie)@, sortie@, *o));
            }
        },
        _ => {
            proof {
                assert forall|x: u64|
                    #![trigger sortie@.contains(x)]
                    #![trigger ref_de(*o, x)]
                    sortie@.contains(x) <==> (old(sortie)@.contains(x) || ref_de(*o, x)) by {
                    assert(!ref_de(*o, x));
                }
                assert(refs_ajoutees(old(sortie)@, sortie@, *o));
            }
        },
    }
}

/// La valeur est-elle dans la liste ?
pub fn contient_u64(liste: &Vec<u64>, v: u64) -> (r: bool)
    ensures
        r == liste@.contains(v),
{
    let mut i: usize = 0;
    while i < liste.len()
        invariant
            0 <= i <= liste@.len(),
            forall|j: int| 0 <= j < i ==> (#[trigger] liste@[j]) != v,
        decreases liste@.len() - i,
    {
        if liste[i] == v {
            proof {
                assert(liste@[i as int] == v);
            }
            return true;
        }
        i = i + 1;
    }
    proof {
        assert(!liste@.contains(v));
    }
    false
}

/// L'ensemble `vus` est clos par reference dans l'arene : tout objet de
/// l'arene dont l'identite est vue n'a que des references vues.
pub open spec fn clos_par_refs(objets: Seq<(u64, Objet)>, vus: Seq<u64>) -> bool {
    forall|i: int, x: u64|
        0 <= i < objets.len() && vus.contains(#[trigger] objets[i].0) && #[trigger] ref_de(
            objets[i].1,
            x,
        ) ==> vus.contains(x)
}

/// Chaque element de `elements` est dans `v`.
pub open spec fn elements_dans(elements: Seq<u64>, v: Seq<u64>) -> bool {
    forall|i: int| 0 <= i < elements.len() ==> v.contains(#[trigger] elements[i])
}

/// `vus` est sous toute partie close contenant les graines : c'est le plus
/// petit point fixe de la fermeture par references.
pub open spec fn sous_toute_cloture(
    objets: Seq<(u64, Objet)>,
    graines: Seq<u64>,
    vus: Seq<u64>,
) -> bool {
    forall|v: Seq<u64>|
        (#[trigger] clos_par_refs(objets, v)) && elements_dans(graines, v) ==> elements_dans(
            vus,
            v,
        )
}

/// L'identite `x` est atteignable depuis `racine` : elle appartient a
/// toute partie close par references qui contient la racine.
pub open spec fn atteignable(objets: Seq<(u64, Objet)>, racine: u64, x: u64) -> bool {
    forall|v: Seq<u64>|
        (#[trigger] clos_par_refs(objets, v)) && v.contains(racine) ==> v.contains(x)
}

/// La fermeture transitive des references a partir des graines : tout ce
/// qu'une page retenue atteint doit l'accompagner, sous peine de
/// references pendantes.
#[verifier::loop_isolation(false)]
pub fn cloture(d: &Document, graines: Vec<u64>) -> (r: Vec<u64>)
    requires
        ids_uniques(d.objets@),
        ferme(d.objets@),
    ensures
        forall|j: int| 0 <= j < graines@.len() ==> r@.contains(#[trigger] graines@[j]),
        clos_par_refs(d.objets@, r@),
        r@.no_duplicates(),
        forall|j: int|
            0 <= j < r@.len() ==> graines@.contains(#[trigger] r@[j]) || contient_id(
                d.objets@,
                r@[j],
            ),
        sous_toute_cloture(d.objets@, graines@, r@),
{
    let mut vus: Vec<u64> = Vec::new();
    let mut g: usize = 0;
    while g < graines.len()
        invariant
            0 <= g <= graines@.len(),
            forall|j: int| 0 <= j < g ==> vus@.contains(#[trigger] graines@[j]),
            forall|i: int, j: int|
                0 <= i < j < vus@.len() ==> (#[trigger] vus@[i]) != (#[trigger] vus@[j]),
            forall|j: int| 0 <= j < vus@.len() ==> graines@.contains(#[trigger] vus@[j]),
            sous_toute_cloture(d.objets@, graines@, vus@),
        decreases graines@.len() - g,
    {
        if !contient_u64(&vus, graines[g]) {
            let ghost avant = vus@;
            vus.push(graines[g]);
            proof {
                assert(vus@[avant.len() as int] == graines@[g as int]);
                assert forall|v: Seq<u64>|
                    (#[trigger] clos_par_refs(d.objets@, v)) && elements_dans(
                        graines@,
                        v,
                    ) implies elements_dans(vus@, v) by {
                    assert(elements_dans(avant, v));
                    assert forall|j: int| 0 <= j < vus@.len() implies v.contains(
                        #[trigger] vus@[j],
                    ) by {
                        if j < avant.len() {
                            assert(vus@[j] == avant[j]);
                        } else {
                            assert(vus@[j] == graines@[g as int]);
                        }
                    }
                }
                assert forall|j: int| 0 <= j < g + 1 implies vus@.contains(
                    #[trigger] graines@[j],
                ) by {
                    if j < g {
                        let w = choose|w: int| 0 <= w < avant.len() && avant[w] == graines@[j];
                        assert(vus@[w] == graines@[j]);
                    }
                }
                assert forall|i: int, j: int| 0 <= i < j < vus@.len() implies (#[trigger] vus@[i])
                    != (#[trigger] vus@[j]) by {
                    if j < avant.len() {
                        assert(avant[i] == vus@[i] && avant[j] == vus@[j]);
                    } else {
                        assert(vus@[j] == graines@[g as int]);
                        assert(avant[i] == vus@[i]);
                        assert(avant.contains(avant[i]));
                    }
                }
            }
        } else {
            proof {
                assert forall|j: int| 0 <= j < g + 1 implies vus@.contains(
                    #[trigger] graines@[j],
                ) by {}
            }
        }
        g = g + 1;
    }
    // Sature : tant qu'un objet vu porte une reference non vue, on l'ajoute.
    proof {
        lemma_borne_vus(d.objets@, graines@, vus@);
    }
    let mut fini = false;
    while !fini
        invariant
            ids_uniques(d.objets@),
            ferme(d.objets@),
            forall|j: int| 0 <= j < graines@.len() ==> vus@.contains(#[trigger] graines@[j]),
            forall|i: int, j: int|
                0 <= i < j < vus@.len() ==> (#[trigger] vus@[i]) != (#[trigger] vus@[j]),
            forall|j: int|
                0 <= j < vus@.len() ==> graines@.contains(#[trigger] vus@[j]) || contient_id(
                    d.objets@,
                    vus@[j],
                ),
            sous_toute_cloture(d.objets@, graines@, vus@),
            fini ==> clos_par_refs(d.objets@, vus@),
        decreases d.objets@.len() + graines@.len() - vus@.len(), (if fini {
            0int
        } else {
            1int
        }),
    {
        proof {
            lemma_borne_vus(d.objets@, graines@, vus@);
        }
        let mut manquant: Option<u64> = None;
        let mut i: usize = 0;
        while i < d.objets.len() && manquant.is_none()
            invariant
                0 <= i <= d.objets@.len(),
                match manquant {
                    Some(x) => !vus@.contains(x) && exists|ii: int|
                        0 <= ii < d.objets@.len() && vus@.contains(
                            (#[trigger] d.objets@[ii]).0,
                        ) && ref_de(d.objets@[ii].1, x),
                    None => forall|ii: int, x: u64|
                        0 <= ii < i && vus@.contains((#[trigger] d.objets@[ii]).0) && #[trigger] ref_de(
                            d.objets@[ii].1,
                            x,
                        ) ==> vus@.contains(x),
                },
            decreases d.objets@.len() - i, (if manquant is None { 1int } else { 0int }),
        {
            if contient_u64(&vus, d.objets[i].0) {
                let mut refs: Vec<u64> = Vec::new();
                let element = &d.objets[i].1;
                pousse_refs(element, &mut refs);
                proof {
                    assert(*element == d.objets@[i as int].1);
                    assert forall|x: u64| refs@.contains(x) <==> ref_de(
                        d.objets@[i as int].1,
                        x,
                    ) by {
                        assert(refs@.contains(x) <==> (Seq::<u64>::empty().contains(x) || ref_de(
                            *element,
                            x,
                        )));
                    }
                }
                let mut w: usize = 0;
                while w < refs.len() && manquant.is_none()
                    invariant
                        0 <= w <= refs@.len(),
                        0 <= i < d.objets@.len(),
                        vus@.contains(d.objets@[i as int].0),
                        forall|x: u64| refs@.contains(x) <==> ref_de(d.objets@[i as int].1, x),
                        match manquant {
                            Some(x) => !vus@.contains(x) && ref_de(d.objets@[i as int].1, x),
                            None => forall|q: int|
                                0 <= q < w ==> vus@.contains(#[trigger] refs@[q]),
                        },
                    decreases refs@.len() - w, (if manquant is None { 1int } else { 0int }),
                {
                    if !contient_u64(&vus, refs[w]) {
                        proof {
                            assert(refs@.contains(refs@[w as int]));
                        }
                        manquant = Some(refs[w]);
                    } else {
                        w = w + 1;
                    }
                }
                proof {
                    if manquant is None {
                        assert forall|x: u64| ref_de(
                            d.objets@[i as int].1,
                            x,
                        ) implies vus@.contains(x) by {
                            let q = choose|q: int| 0 <= q < refs@.len() && refs@[q] == x;
                            assert(vus@.contains(refs@[q]));
                        }
                    }
                }
            }
            if manquant.is_none() {
                i = i + 1;
            }
        }
        match manquant {
            None => {
                fini = true;
            },
            Some(x) => {
                let ghost avant = vus@;
                vus.push(x);
                proof {
                    assert(vus@[avant.len() as int] == x);
                    assert forall|j: int| 0 <= j < graines@.len() implies vus@.contains(
                        #[trigger] graines@[j],
                    ) by {
                        let w = choose|w: int| 0 <= w < avant.len() && avant[w] == graines@[j];
                        assert(vus@[w] == graines@[j]);
                    }
                    assert forall|a: int, b: int| 0 <= a < b < vus@.len() implies (
                    #[trigger] vus@[a]) != (#[trigger] vus@[b]) by {
                        if b < avant.len() {
                            assert(avant[a] == vus@[a] && avant[b] == vus@[b]);
                        } else {
                            assert(avant[a] == vus@[a]);
                            assert(avant.contains(avant[a]));
                        }
                    }
                    // x est reference par un objet de l'arene : la cloture
                    // referentielle le place dans l'arene.
                    let ii = choose|ii: int|
                        0 <= ii < d.objets@.len() && avant.contains((#[trigger] d.objets@[ii]).0)
                            && ref_de(d.objets@[ii].1, x);
                    assert(contient_id(d.objets@, x));
                    assert forall|v: Seq<u64>|
                        (#[trigger] clos_par_refs(d.objets@, v)) && elements_dans(
                            graines@,
                            v,
                        ) implies elements_dans(vus@, v) by {
                        assert(elements_dans(avant, v));
                        assert forall|j: int| 0 <= j < vus@.len() implies v.contains(
                            #[trigger] vus@[j],
                        ) by {
                            if j < avant.len() {
                                assert(vus@[j] == avant[j]);
                            } else {
                                assert(vus@[j] == x);
                                let w = choose|w: int|
                                    0 <= w < avant.len() && (#[trigger] avant[w]) == d.objets@[ii].0;
                                assert(v.contains(avant[w]));
                                assert(v.contains(d.objets@[ii].0));
                            }
                        }
                    }
                    assert forall|j: int| 0 <= j < vus@.len() implies graines@.contains(
                        #[trigger] vus@[j],
                    ) || contient_id(d.objets@, vus@[j]) by {
                        if j < avant.len() {
                            assert(vus@[j] == avant[j]);
                        }
                    }
                    lemma_borne_vus(d.objets@, graines@, vus@);
                }
            },
        }
    }
    vus
}

/// Des identites distinctes, toutes graines ou presentes dans l'arene, ne
/// peuvent exceder le total des deux.
pub proof fn lemma_borne_vus(objets: Seq<(u64, Objet)>, graines: Seq<u64>, vus: Seq<u64>)
    requires
        forall|i: int, j: int|
            0 <= i < j < vus.len() ==> (#[trigger] vus[i]) != (#[trigger] vus[j]),
        forall|j: int|
            0 <= j < vus.len() ==> graines.contains(#[trigger] vus[j]) || contient_id(
                objets,
                vus[j],
            ),
    ensures
        vus.len() <= objets.len() + graines.len(),
{
    let ids = objets.map_values(|p: (u64, Objet)| p.0);
    assert(vus.no_duplicates());
    vus.unique_seq_to_set();
    assert(vus.to_set().len() == vus.len());
    assert forall|x: u64| vus.to_set().contains(x) implies (graines.to_set() + ids.to_set())
        .contains(x) by {
        let j = choose|j: int| 0 <= j < vus.len() && vus[j] == x;
        if graines.contains(x) {
            assert(graines.to_set().contains(x));
        } else {
            assert(contient_id(objets, x));
            lemma_cherche_indice(objets, x);
            let i = choose|i: int|
                0 <= i < objets.len() && (#[trigger] objets[i]).0 == x && cherche_spec(objets, x)
                    == Some(objets[i].1);
            assert(ids[i] == x);
            assert(ids.contains(x));
            assert(ids.to_set().contains(x));
        }
    }
    graines.lemma_cardinality_of_set();
    ids.lemma_cardinality_of_set();
    vstd::set_lib::lemma_len_union(graines.to_set(), ids.to_set());
    vstd::set_lib::lemma_len_subset(vus.to_set(), graines.to_set() + ids.to_set());
}

} // verus!

verus! {

/// Les chiffres decimaux d'un entier.
pub open spec fn chiffres_spec(n: int) -> Seq<char>
    decreases n,
{
    if n < 0 {
        Seq::empty()
    } else if n < 10 {
        seq![chiffre_car(n)]
    } else {
        chiffres_spec(n / 10).push(chiffre_car(n % 10))
    }
}

pub open spec fn chiffre_car(d: int) -> char {
    if d == 0 {
        '0'
    } else if d == 1 {
        '1'
    } else if d == 2 {
        '2'
    } else if d == 3 {
        '3'
    } else if d == 4 {
        '4'
    } else if d == 5 {
        '5'
    } else if d == 6 {
        '6'
    } else if d == 7 {
        '7'
    } else if d == 8 {
        '8'
    } else {
        '9'
    }
}

/// Le numero en toutes lettres decimales, complete a gauche par des zeros
/// jusqu'a quatre chiffres.
pub open spec fn numero_complete(n: int) -> Seq<char> {
    let c = chiffres_spec(n);
    if c.len() >= 4 {
        c
    } else {
        zeros(4 - c.len()) + c
    }
}

pub open spec fn zeros(k: int) -> Seq<char>
    decreases k,
{
    if k <= 0 {
        Seq::empty()
    } else {
        seq!['0'] + zeros(k - 1)
    }
}

/// Le nom du fichier d'une page extraite : la racine, `_page_`, le numero
/// a quatre chiffres, `.pdf`.
pub open spec fn nom_page(racine: Seq<char>, n: int) -> Seq<char> {
    racine + "_page_"@ + numero_complete(n) + ".pdf"@
}

/// Le chiffre sous forme de tranche de chaine.
fn chiffre_str(d: u64) -> (r: &'static str)
    requires
        d < 10,
    ensures
        r@ == seq![chiffre_car(d as int)],
{
    proof {
        reveal_strlit("0");
        reveal_strlit("1");
        reveal_strlit("2");
        reveal_strlit("3");
        reveal_strlit("4");
        reveal_strlit("5");
        reveal_strlit("6");
        reveal_strlit("7");
        reveal_strlit("8");
        reveal_strlit("9");
    }
    if d == 0 {
        "0"
    } else if d == 1 {
        "1"
    } else if d == 2 {
        "2"
    } else if d == 3 {
        "3"
    } else if d == 4 {
        "4"
    } else if d == 5 {
        "5"
    } else if d == 6 {
        "6"
    } else if d == 7 {
        "7"
    } else if d == 8 {
        "8"
    } else {
        "9"
    }
}

/// Les chiffres decimaux d'un entier, en chaine.
fn chiffres_chaine(n: u64) -> (r: String)
    ensures
        r@ == chiffres_spec(n as int),
    decreases n,
{
    if n < 10 {
        chiffre_str(n).to_owned()
    } else {
        let mut r = chiffres_chaine(n / 10);
        r.append(chiffre_str(n % 10));
        proof {
            assert(r@ =~= chiffres_spec(n as int));
        }
        r
    }
}

/// Le nom de fichier d'une page extraite.
fn nom_fichier_page(racine: &str, n: u64) -> (r: String)
    ensures
        r@ == nom_page(racine@, n as int),
{
    let chiffres = chiffres_chaine(n);
    let mut nom = racine.to_owned();
    nom.append("_page_");
    if chiffres.as_str().unicode_len() < 4 {
        let mut k = chiffres.as_str().unicode_len();
        while k < 4
            invariant
                chiffres@ == chiffres_spec(n as int),
                chiffres@.len() < 4,
                chiffres@.len() <= k <= 4,
                nom@ == racine@ + "_page_"@ + zeros(k - chiffres@.len()),
            decreases 4 - k,
        {
            nom.append("0");
            proof {
                reveal_strlit("0");
                assert(nom@ =~= racine@ + "_page_"@ + zeros(k + 1 - chiffres@.len())) by {
                    lemma_zeros_pousse(k + 1 - chiffres@.len() as int);
                }
            }
            k = k + 1;
        }
    }
    nom.append(chiffres.as_str());
    nom.append(".pdf");
    proof {
        assert(nom@ =~= nom_page(racine@, n as int));
    }
    nom
}

/// Ajouter un zero a gauche prolonge la suite de zeros.
proof fn lemma_zeros_pousse(k: int)
    requires
        k >= 1,
    ensures
        zeros(k - 1).push('0') =~= zeros(k),
    decreases k,
{
    if k > 1 {
        lemma_zeros_pousse(k - 1);
        assert(zeros(k) =~= seq!['0'] + zeros(k - 1));
        assert(zeros(k - 1).push('0') =~= (seq!['0'] + zeros(k - 2)).push('0'));
    }
}

} // verus!

verus! {

/// Copie profonde des entrees d'un dictionnaire de page, toute entree
/// `Parent` ecartee : le document extrait recoit un parent neuf.
#[verifier::loop_isolation(false)]
fn copie_sans_parent(e: &Vec<(String, Objet)>, de: usize) -> (r: Vec<(String, Objet)>)
    requires
        de <= e@.len(),
    ensures
        forall|i: int| 0 <= i < r@.len() ==> (#[trigger] r@[i]).0@ != "Parent"@,
        forall|i: int, x: u64|
            0 <= i < r@.len() && #[trigger] ref_de(r@[i].1, x) ==> exists|j: int|
                0 <= j < e@.len() && (#[trigger] e@[j]).0@ != "Parent"@ && ref_de(e@[j].1, x),
        forall|k: Seq<char>|
            k != "Parent"@ ==> crate::modele::option_egal_vue(
                #[trigger] valeur_cle(r@, k),
                valeur_cle(e@.skip(de as int), k),
            ),
    decreases e@.len() - de,
{
    if de >= e.len() {
        proof {
            assert(e@.skip(de as int).len() == 0);
        }
        return Vec::new();
    }
    proof {
        assert(e@.skip(de as int)[0] == e@[de as int]);
        assert(e@.skip(de as int).drop_first() =~= e@.skip(de as int + 1));
    }
    let mut suite = copie_sans_parent(e, de + 1);
    if e[de].0.as_str().eq("Parent") {
        suite
    } else {
        let copie = crate::modele::copie_objet(&e[de].1);
        proof {
            crate::modele::lemma_egal_vue_refs(copie, e@[de as int].1);
        }
        let ghost avant = suite@;
        suite.insert(0, (e[de].0.clone(), copie));
        proof {
            assert(suite@ =~= seq![(e@[de as int].0, copie)].update(
                0,
                suite@[0],
            ) + avant) by {
                assert(suite@ == avant.insert(0, suite@[0]));
                assert(suite@.drop_first() =~= avant);
            }
            assert forall|i: int, x: u64|
                0 <= i < suite@.len() && #[trigger] ref_de(suite@[i].1, x) implies exists|j: int|
                0 <= j < e@.len() && (#[trigger] e@[j]).0@ != "Parent"@ && ref_de(
                e@[j].1,
                x,
            ) by {
                if i == 0 {
                    assert(ref_de(copie, x));
                    assert(ref_de(e@[de as int].1, x));
                } else {
                    assert(suite@[i] == avant[i - 1]);
                }
            }
            assert forall|k: Seq<char>| k != "Parent"@ implies crate::modele::option_egal_vue(
                #[trigger] valeur_cle(suite@, k),
                valeur_cle(e@.skip(de as int), k),
            ) by {
                assert(suite@[0] == (e@[de as int].0, copie));
                assert(suite@.drop_first() =~= avant);
                if k == e@[de as int].0@ {
                    assert(egal_vue(copie, e@[de as int].1));
                } else {
                    assert(valeur_cle(suite@, k) == valeur_cle(avant, k));
                }
            }
        }
        suite
    }
}

/// Extrait une page en document autonome : la page, la fermeture de ses
/// references (parent excepte), un arbre d'une page et un catalogue neufs.
#[verifier::loop_isolation(false)]
#[verifier::rlimit(100)]
fn extrait_page(d: &Document, pid: u64) -> (r: Result<Document, Erreur>)
    requires
        bien_forme(*d),
        est_dict_de_type(d.objets@, pid, "Page"@),
    ensures
        match r {
            Ok(s) => {
                &&& bien_forme(s)
                &&& s.chiffrement is None
                &&& pages_spec(s) =~= seq![pid]
            },
            Err(e) => {
                &&& e == Erreur::Structurelle
                &&& maximum_id(d.objets@) + 2 >= BORNE_ID
            },
        },
{
    let ghost objets0 = d.objets@;
    proof {
        crate::modele::lemma_cherche_indice(objets0, pid);
        lemma_maximum_id(objets0);
    }
    let entrees_page = match d.cherche(pid) {
        Some(Objet::Dictionnaire(e)) => e,
        _ => {
            proof {
                assert(false);
            }
            return Err(Erreur::Structurelle);
        },
    };
    let ghost ge = entrees_page@;
    // La page sans parent, copiee ; ses references sont les graines.
    let mut page_nv = copie_sans_parent(entrees_page, 0);
    let mut graines: Vec<u64> = Vec::new();
    let element = Objet::Dictionnaire(page_nv);
    pousse_refs(&element, &mut graines);
    let mut page_nv = match element {
        Objet::Dictionnaire(e) => e,
        _ => {
            proof {
                assert(false);
            }
            return Err(Erreur::Structurelle);
        },
    };
    let ghost gpage = page_nv@;
    proof {
        assert forall|x: u64| graines@.contains(x) implies contient_id(objets0, x) by {
            let i = choose|i: int| 0 <= i < gpage.len() && ref_de(#[trigger] gpage[i].1, x);
            let j = choose|j: int|
                0 <= j < ge.len() && (#[trigger] ge[j]).0@ != "Parent"@ && ref_de(ge[j].1, x);
            assert(cherche_spec(objets0, pid)->Some_0->Dictionnaire_0@ == ge);
            crate::modele::lemma_cherche_indice(objets0, pid);
            let ii = choose|ii: int|
                0 <= ii < objets0.len() && (#[trigger] objets0[ii]).0 == pid && cherche_spec(
                    objets0,
                    pid,
                ) == Some(objets0[ii].1);
            assert(ref_de(objets0[ii].1, x));
        }
    }
    let fermeture = cloture(d, graines);
    // Copie la fermeture dans la nouvelle arene, en ecartant l'identite de
    // la page elle-meme, reprise a part.
    let mut objets: Vec<(u64, Objet)> = Vec::new();
    let mut max_id: u64 = pid;
    let mut i: usize = 0;
    while i < fermeture.len()
        invariant
            0 <= i <= fermeture@.len(),
            bien_forme(*d),
            fermeture@.no_duplicates(),
            clos_par_refs(objets0, fermeture@),
            pid <= max_id < BORNE_ID,
            max_id as int <= maximum_id(objets0),
            forall|j: int|
                0 <= j < objets@.len() ==> 1 <= (#[trigger] objets@[j]).0 <= max_id,
            forall|j: int, x: u64|
                0 <= j < objets@.len() && #[trigger] ref_de(objets@[j].1, x) ==> fermeture@.contains(
                    x,
                ),
            forall|a: int, b: int|
                0 <= a < b < objets@.len() ==> (#[trigger] objets@[a]).0 != (
                #[trigger] objets@[b]).0,
            forall|j: int| 0 <= j < objets@.len() ==> (#[trigger] objets@[j]).0 != pid,
            forall|x: u64|
                #![trigger contient_id(objets@, x)]
                contient_id(objets@, x) <==> (fermeture@.subrange(0, i as int).contains(x)
                    && contient_id(objets0, x) && x != pid),
        decreases fermeture@.len() - i,
    {
        let id = fermeture[i];
        let ghost objets_avant = objets@;
        if id != pid {
            match d.cherche(id) {
                Some(o) => {
                    let c = crate::modele::copie_objet(o);
                    proof {
                        crate::modele::lemma_egal_vue_refs(c, cherche_spec(objets0, id)->Some_0);
                        if contient_id(objets@, id) {
                            assert(fermeture@.subrange(0, i as int).contains(id));
                            let w = choose|w: int|
                                0 <= w < i && (#[trigger] fermeture@.subrange(0, i as int)[w])
                                    == id;
                            assert(fermeture@[w] == fermeture@[i as int]);
                            assert(false);
                        }
                        assert forall|j: int| 0 <= j < objets@.len() implies (
                        #[trigger] objets@[j].0) != id by {
                            if objets@[j].0 == id {
                                crate::modele::lemma_indice_cherche(objets@, j);
                            }
                        }
                        crate::modele::lemma_cherche_push(objets_avant, (id, c));
                        crate::modele::lemma_cherche_indice(objets0, id);
                        let v = choose|v: int|
                            0 <= v < objets0.len() && (#[trigger] objets0[v]).0 == id
                                && cherche_spec(objets0, id) == Some(objets0[v].1);
                        assert(1 <= id < BORNE_ID);
                        lemma_maximum_id(objets0);
                        assert(id as int <= maximum_id(objets0));
                    }
                    let nmax = if id > max_id {
                        id
                    } else {
                        max_id
                    };
                    objets.push((id, c));
                    max_id = nmax;
                    proof {
                        assert forall|x: u64|
                            #![trigger contient_id(objets@, x)]
                            contient_id(objets@, x) <==> (fermeture@.subrange(
                            0,
                            i as int + 1,
                        ).contains(x) && contient_id(objets0, x) && x != pid) by {
                            assert(fermeture@.subrange(0, i as int + 1).drop_last()
                                =~= fermeture@.subrange(0, i as int));
                            if contient_id(objets@, x) {
                                if x != id {
                                    assert(contient_id(objets_avant, x));
                                    assert(fermeture@.subrange(0, i as int).contains(x));
                                    let w = choose|w: int|
                                        0 <= w < i && fermeture@.subrange(0, i as int)[w] == x;
                                    assert(fermeture@.subrange(0, i as int + 1)[w] == x);
                                } else {
                                    assert(fermeture@.subrange(0, i as int + 1)[i as int] == x);
                                }
                            }
                            if fermeture@.subrange(0, i as int + 1).contains(x) && contient_id(
                                objets0,
                                x,
                            ) && x != pid {
                                let w = choose|w: int|
                                    0 <= w < i + 1 && (#[trigger] fermeture@.subrange(
                                        0,
                                        i as int + 1,
                                    )[w]) == x;
                                if w < i {
                                    assert(fermeture@.subrange(0, i as int)[w] == x);
                                    assert(contient_id(objets_avant, x));
                                    crate::modele::lemma_cherche_indice(objets_avant, x);
                                    let v = choose|v: int|
                                        0 <= v < objets_avant.len() && (
                                        #[trigger] objets_avant[v]).0 == x && cherche_spec(
                                            objets_avant,
                                            x,
                                        ) == Some(objets_avant[v].1);
                                    crate::modele::lemma_indice_cherche(objets@, v);
                                }
                            }
                        }
                    }
                },
                None => {
                    proof {
                        assert forall|x: u64|
                            #![trigger contient_id(objets@, x)]
                            contient_id(objets@, x) <==> (fermeture@.subrange(
                            0,
                            i as int + 1,
                        ).contains(x) && contient_id(objets0, x) && x != pid) by {
                            assert(fermeture@.subrange(0, i as int + 1).drop_last()
                                =~= fermeture@.subrange(0, i as int));
                            if fermeture@.subrange(0, i as int + 1).contains(x) && contient_id(
                                objets0,
                                x,
                            ) && x != pid {
                                let w = choose|w: int|
                                    0 <= w < i + 1 && (#[trigger] fermeture@.subrange(
                                        0,
                                        i as int + 1,
                                    )[w]) == x;
                                if w < i {
                                    assert(fermeture@.subrange(0, i as int)[w] == x);
                                }
                            }
                            if contient_id(objets@, x) {
                                assert(fermeture@.subrange(0, i as int).contains(x));
                                let w = choose|w: int|
                                    0 <= w < i && fermeture@.subrange(0, i as int)[w] == x;
                                assert(fermeture@.subrange(0, i as int + 1)[w] == x);
                            }
                        }
                    }
                },
            }
        } else {
            proof {
                assert forall|x: u64|
                    #![trigger contient_id(objets@, x)]
                    contient_id(objets@, x) <==> (fermeture@.subrange(
                    0,
                    i as int + 1,
                ).contains(x) && contient_id(objets0, x) && x != pid) by {
                    assert(fermeture@.subrange(0, i as int + 1).drop_last() =~= fermeture@.subrange(
                        0,
                        i as int,
                    ));
                    if fermeture@.subrange(0, i as int + 1).contains(x) && contient_id(
                        objets0,
                        x,
                    ) && x != pid {
                        let w = choose|w: int|
                            0 <= w < i + 1 && (#[trigger] fermeture@.subrange(0, i as int + 1)[w])
                                == x;
                        if w < i {
                            assert(fermeture@.subrange(0, i as int)[w] == x);
                        } else {
                            assert(false);
                        }
                    }
                    if contient_id(objets@, x) {
                        assert(fermeture@.subrange(0, i as int).contains(x));
                        let w = choose|w: int| 0 <= w < i && fermeture@.subrange(0, i as int)[w]
                            == x;
                        assert(fermeture@.subrange(0, i as int + 1)[w] == x);
                    }
                }
            }
        }
        i = i + 1;
    }
    if max_id >= BORNE_ID - 2 {
        return Err(Erreur::Structurelle);
    }
    let racine_nv: u64 = max_id + 1;
    let cat_nv: u64 = max_id + 2;
    let ghost objets_fermeture = objets@;
    // La page, son parent remplace par le nouvel arbre.
    dict_definir(&mut page_nv, "Parent", Objet::Reference(racine_nv));
    let ghost gpage2 = page_nv@;
    objets.push((pid, Objet::Dictionnaire(page_nv)));
    // L'arbre d'une page et le catalogue.
    proof {
        reveal_strlit("Type");
        reveal_strlit("Pages");
        reveal_strlit("Kids");
        reveal_strlit("Count");
        reveal_strlit("Catalog");
        reveal_strlit("Parent");
        reveal_strlit("Page");
        lemma_cles_distinctes();
    }
    let mut kids: Vec<Objet> = Vec::new();
    kids.push(Objet::Reference(pid));
    let ghost gkids = kids@;
    let mut racine_e: Vec<(String, Objet)> = Vec::new();
    racine_e.push(("Type".to_owned(), Objet::Nom("Pages".to_owned())));
    racine_e.push(("Kids".to_owned(), Objet::Tableau(kids)));
    racine_e.push(("Count".to_owned(), Objet::Entier(1)));
    let ghost gracine = racine_e@;
    objets.push((racine_nv, Objet::Dictionnaire(racine_e)));
    let mut cat_e: Vec<(String, Objet)> = Vec::new();
    cat_e.push(("Type".to_owned(), Objet::Nom("Catalog".to_owned())));
    cat_e.push(("Pages".to_owned(), Objet::Reference(racine_nv)));
    let ghost gcat = cat_e@;
    objets.push((cat_nv, Objet::Dictionnaire(cat_e)));
    let s = Document { objets, racine: cat_nv, chiffrement: None };
    proof {
        let so = s.objets@;
        let nf = objets_fermeture.len() as int;
        assert(so.len() == nf + 3);
        // Identites deux a deux distinctes.
        assert forall|a: int, b: int| 0 <= a < b < so.len() implies (#[trigger] so[a]).0 != (
        #[trigger] so[b]).0 by {
            if b < nf {
                assert(so[a] == objets_fermeture[a] && so[b] == objets_fermeture[b]);
            } else if a < nf {
                assert(so[a] == objets_fermeture[a]);
                assert(objets_fermeture[a].0 <= max_id && objets_fermeture[a].0 != pid);
            }
        }
        assert(ids_uniques(so));
        assert(ids_bornes(so)) by {
            assert forall|j: int| 0 <= j < so.len() implies 1 <= (#[trigger] so[j]).0
                < BORNE_ID by {
                if j < nf {
                    assert(so[j] == objets_fermeture[j]);
                } else {
                    crate::modele::lemma_cherche_indice(objets0, pid);
                }
            }
        }
        // Cloture referentielle.
        assert forall|j: int, x: u64|
            0 <= j < so.len() && #[trigger] ref_de(so[j].1, x) implies contient_id(so, x) by {
            assert(so[nf].0 == pid && so[nf + 1].0 == racine_nv && so[nf + 2].0 == cat_nv);
            if x == pid {
                crate::modele::lemma_indice_cherche(so, nf);
            } else if x == racine_nv {
                crate::modele::lemma_indice_cherche(so, nf + 1);
            } else if x == cat_nv {
                crate::modele::lemma_indice_cherche(so, nf + 2);
            } else {
                if j < nf {
                    assert(so[j] == objets_fermeture[j]);
                    assert(fermeture@.contains(x));
                    assert(contient_id(objets0, x)) by {
                        if !contient_id(objets0, x) {
                            let w = choose|w: int|
                                0 <= w < fermeture@.len() && fermeture@[w] == x;
                            assert(graines@.contains(fermeture@[w]) || contient_id(
                                objets0,
                                fermeture@[w],
                            ));
                            assert(contient_id(objets0, x));
                        }
                    }
                    assert(contient_id(objets_fermeture, x)) by {
                        assert(fermeture@.subrange(0, fermeture@.len() as int) =~= fermeture@);
                    }
                    crate::modele::lemma_cherche_indice(objets_fermeture, x);
                    let v = choose|v: int|
                        0 <= v < objets_fermeture.len() && (#[trigger] objets_fermeture[v]).0 == x
                            && cherche_spec(objets_fermeture, x) == Some(objets_fermeture[v].1);
                    crate::modele::lemma_indice_cherche(so, v);
                } else if j == nf {
                    // la page : ses references viennent de la copie sans
                    // parent (les graines) ou du parent neuf.
                    assert(so[j].1 == Objet::Dictionnaire(page_nv));
                    let w = choose|w: int|
                        0 <= w < gpage2.len() && ref_de(#[trigger] gpage2[w].1, x);
                    if gpage2[w].0@ == "Parent"@ && gpage2[w].1 == Objet::Reference(racine_nv) {
                        assert(x == racine_nv);
                        assert(false);
                    } else {
                        assert((w < gpage.len() && gpage2[w] == gpage[w]) || (gpage2[w].0@
                            == "Parent"@ && gpage2[w].1 == Objet::Reference(racine_nv)));
                        assert(ref_de(gpage[w].1, x));
                        assert(graines@.contains(x));
                        assert(fermeture@.contains(x));
                        if x != pid {
                            assert(contient_id(objets0, x));
                            assert(contient_id(objets_fermeture, x)) by {
                                assert(fermeture@.subrange(0, fermeture@.len() as int)
                                    =~= fermeture@);
                            }
                            crate::modele::lemma_cherche_indice(objets_fermeture, x);
                            let v = choose|v: int|
                                0 <= v < objets_fermeture.len() && (
                                #[trigger] objets_fermeture[v]).0 == x && cherche_spec(
                                    objets_fermeture,
                                    x,
                                ) == Some(objets_fermeture[v].1);
                            crate::modele::lemma_indice_cherche(so, v);
                        }
                    }
                } else if j == nf + 1 {
                    let w = choose|w: int|
                        0 <= w < gracine.len() && ref_de(#[trigger] gracine[w].1, x);
                    if w == 1 {
                        let u = choose|u: int|
                            0 <= u < gkids.len() && ref_de(#[trigger] gkids[u], x);
                        assert(x == pid);
                        assert(false);
                    }
                } else {
                    let w = choose|w: int| 0 <= w < gcat.len() && ref_de(#[trigger] gcat[w].1, x);
                    assert(x == racine_nv);
                    assert(false);
                }
            }
        }
        assert(ferme(so));
        // L'arbre des pages du document extrait.
        crate::modele::lemma_cherche_unique(so, nf + 2);
        crate::modele::lemma_cherche_unique(so, nf + 1);
        crate::modele::lemma_cherche_unique(so, nf);
        reveal_with_fuel(valeur_cle, 5);
        assert(cherche_spec(so, cat_nv) == Some(so[nf + 2].1));
        assert(gcat.drop_first()[0] == gcat[1]);
        assert(valeur_cle(gcat, "Type"@) == Some(gcat[0].1));
        assert(valeur_cle(gcat, "Pages"@) == Some(gcat[1].1));
        assert(est_dict_de_type(so, cat_nv, "Catalog"@));
        assert(id_pages(s) == Some(racine_nv));
        assert(gracine.drop_first()[0] == gracine[1]);
        assert(gracine.drop_first().drop_first()[0] == gracine[2]);
        assert(valeur_cle(gracine, "Type"@) == Some(gracine[0].1));
        assert(valeur_cle(gracine, "Kids"@) == Some(gracine[1].1));
        assert(valeur_cle(gracine, "Count"@) == Some(gracine[2].1));
        assert(est_dict_de_type(so, racine_nv, "Pages"@));
        assert(cherche_spec(so, pid) == Some(so[nf].1));
        assert(est_dict_de_type(so, pid, "Page"@)) by {
            let vieux = cherche_spec(objets0, pid)->Some_0;
            assert(vieux->Dictionnaire_0@ == ge);
            assert(crate::modele::option_egal_vue(
                valeur_cle(gpage, "Type"@),
                valeur_cle(ge.skip(0), "Type"@),
            ));
            assert(ge.skip(0) =~= ge);
            assert(valeur_cle(gpage2, "Type"@) == valeur_cle(gpage, "Type"@));
        }
        assert(crate::modele::kids_de(s) == gkids);
        assert(pages_spec(s) =~= seq![pid]);
        assert(bien_forme(s));
    }
    Ok(s)
}

} // verus!

verus! {

/// Eclate un document en autant de documents d'une page, chacun sous le
/// nom `<racine>_page_NNNN.pdf` (numerotation a partir de 1, sur quatre
/// chiffres). Un document sans page est refuse ; rien n'est produit.
#[verifier::loop_isolation(false)]
pub fn pdf_split(d: &Document, nom_base: &str) -> (r: Result<Vec<(String, Document)>, Erreur>)
    requires
        bien_forme(*d),
    ensures
        match r {
            Ok(v) => {
                &&& nombre_pages(*d) >= 1
                &&& v@.len() == nombre_pages(*d)
                &&& forall|k: int|
                    0 <= k < v@.len() ==> {
                        &&& bien_forme((#[trigger] v@[k]).1)
                        &&& nombre_pages(v@[k].1) == 1
                        &&& pages_spec(v@[k].1) =~= seq![pages_spec(*d)[k]]
                        &&& v@[k].1.chiffrement is None
                        &&& v@[k].0@ == nom_page(nom_base@, k + 1)
                    }
            },
            Err(e) => {
                &&& e == Erreur::Structurelle
                &&& (nombre_pages(*d) == 0 || nombre_pages(*d) > 0xFFFF_FFFF || maximum_id(
                    d.objets@,
                ) + 2 >= BORNE_ID)
            },
        },
{
    let pages = d.pages_ordonnees();
    if pages.len() == 0 {
        return Err(Erreur::Structurelle);
    }
    if pages.len() > 0xFFFF_FFFF {
        return Err(Erreur::Structurelle);
    }
    let mut sortie: Vec<(String, Document)> = Vec::new();
    let mut k: usize = 0;
    while k < pages.len()
        invariant
            bien_forme(*d),
            pages@ == pages_spec(*d),
            pages@.len() <= 0xFFFF_FFFF,
            0 <= k <= pages@.len(),
            sortie@.len() == k,
            forall|q: int|
                0 <= q < k ==> {
                    &&& bien_forme((#[trigger] sortie@[q]).1)
                    &&& nombre_pages(sortie@[q].1) == 1
                    &&& pages_spec(sortie@[q].1) =~= seq![pages_spec(*d)[q]]
                    &&& sortie@[q].1.chiffrement is None
                    &&& sortie@[q].0@ == nom_page(nom_base@, q + 1)
                },
        decreases pages@.len() - k,
    {
        let pid = pages[k];
        let s = match extrait_page(d, pid) {
            Ok(s) => s,
            Err(e) => {
                return Err(e);
            },
        };
        let nom = nom_fichier_page(nom_base, (k as u64) + 1);
        sortie.push((nom, s));
        k = k + 1;
    }
    Ok(sortie)
}

} // verus!

verus! {

/// Le plus grand numero d'objet, calcule.
#[verifier::loop_isolation(false)]
pub fn max_id_exec(d: &Document) -> (r: u64)
    ensures
        r as int == maximum_id(d.objets@),
{
    let mut m: u64 = 0;
    let mut i: usize = 0;
    proof {
        assert(d.objets@.skip(0) =~= d.objets@);
    }
    while i < d.objets.len()
        invariant
            0 <= i <= d.objets@.len(),
            maximum_id(d.objets@) == (if m as int >= maximum_id(d.objets@.skip(i as int)) {
                m as int
            } else {
                maximum_id(d.objets@.skip(i as int))
            }),
        decreases d.objets@.len() - i,
    {
        proof {
            assert(d.objets@.skip(i as int)[0] == d.objets@[i as int]);
            assert(d.objets@.skip(i as int).drop_first() =~= d.objets@.skip(i as int + 1));
            lemma_maximum_id(d.objets@.skip(i as int));
            lemma_maximum_id(d.objets@.skip(i as int + 1));
        }
        if d.objets[i].0 > m {
            m = d.objets[i].0;
        }
        i = i + 1;
    }
    proof {
        assert(d.objets@.skip(d.objets@.len() as int).len() == 0);
    }
    m
}

/// Copie un objet en decalant chaque reference de `off`. Les autres
/// valeurs, cles de dictionnaires et flux compris, restent telles quelles.
#[verifier::loop_isolation(false)]
pub fn decale_objet(o: &Objet, off: u64) -> (r: Objet)
    requires
        off <= BORNE_ID,
        forall|y: u64| #[trigger] ref_de(*o, y) ==> y < BORNE_ID,
    ensures
        forall|x: u64| #[trigger] ref_de(r, x) ==> x >= off && ref_de(*o, (x - off) as u64),
        forall|y: u64| #[trigger] ref_de(*o, y) ==> ref_de(r, (y + off) as u64),
        (*o matches Objet::Dictionnaire(e) ==> (r matches Objet::Dictionnaire(f) && f@.len()
            == e@.len() && (forall|i: int|
            0 <= i < e@.len() ==> (#[trigger] f@[i]).0@ == e@[i].0@ && (f@[i].1 is Nom <==> e@[i].1
                is Nom) && (e@[i].1 matches Objet::Nom(nm) ==> (f@[i].1 matches Objet::Nom(nm2)
                && nm2@ == nm@))))),
        r is Nom <==> *o is Nom,
        (*o matches Objet::Nom(nm) ==> (r matches Objet::Nom(nm2) && nm2@ == nm@)),
    decreases *o, 1int,
{
    match o {
        Objet::Nul => Objet::Nul,
        Objet::Booleen(b) => Objet::Booleen(*b),
        Objet::Entier(n) => Objet::Entier(*n),
        Objet::Reel(n) => Objet::Reel(*n),
        Objet::Chaine(c) => Objet::Chaine(crate::modele::copie_octets(c)),
        Objet::Nom(n) => Objet::Nom(n.clone()),
        Objet::Reference(id) => {
            proof {
                assert(ref_de(*o, *id));
            }
            Objet::Reference(*id + off)
        },
        Objet::Tableau(t) => {
            proof {
                assert(decreases_to!(*o => o->Tableau_0));
            }
            let mut nv: Vec<Objet> = Vec::new();
            let mut i: usize = 0;
            while i < t.len()
                invariant
                    nv@.len() == i,
                    0 <= i <= t@.len(),
                    forall|j: int, x: u64|
                        0 <= j < i && #[trigger] ref_de(nv@[j], x) ==> x >= off && ref_de(
                            t@[j],
                            (x - off) as u64,
                        ),
                    forall|j: int, y: u64|
                        0 <= j < i && #[trigger] ref_de(t@[j], y) ==> ref_de(
                            nv@[j],
                            (y + off) as u64,
                        ),
                decreases t@.len() - i,
            {
                proof {
                    assert(decreases_to!(*t => t[i as int]));
                    assert(decreases_to!(*o => t[i as int]));
                }
                let element = &t[i];
                proof {
                    assert forall|y: u64| #[trigger] ref_de(*element, y) implies y < BORNE_ID by {
                        assert(ref_de(*o, y));
                    }
                }
                let c = decale_objet(element, off);
                nv.push(c);
                i = i + 1;
            }
            let r = Objet::Tableau(nv);
            proof {
                assert forall|x: u64| #[trigger] ref_de(r, x) implies x >= off && ref_de(
                    *o,
                    (x - off) as u64,
                ) by {
                    let j = choose|j: int|
                        0 <= j < r->Tableau_0@.len() && ref_de(#[trigger] r->Tableau_0@[j], x);
                    assert(ref_de(t@[j], (x - off) as u64));
                }
                assert forall|y: u64| #[trigger] ref_de(*o, y) implies ref_de(
                    r,
                    (y + off) as u64,
                ) by {
                    let j = choose|j: int| 0 <= j < t@.len() && ref_de(#[trigger] t@[j], y);
                    assert(ref_de(r->Tableau_0@[j], (y + off) as u64));
                }
            }
            r
        },
        Objet::Dictionnaire(e) => {
            proof {
                assert(decreases_to!(*o => o->Dictionnaire_0));
            }
            proof {
                assert forall|i: int, y: u64|
                    0 <= i < e@.len() && #[trigger] ref_de(e@[i].1, y) implies y < BORNE_ID by {
                    assert(ref_de(*o, y));
                }
            }
            let nv = decale_entrees(e, off, Ghost(*o));
            let r = Objet::Dictionnaire(nv);
            proof {
                let f = r->Dictionnaire_0;
                assert forall|x: u64| #[trigger] ref_de(r, x) implies x >= off && ref_de(
                    *o,
                    (x - off) as u64,
                ) by {
                    let j = choose|j: int| 0 <= j < f@.len() && ref_de(#[trigger] f@[j].1, x);
                    assert(ref_de(e@[j].1, (x - off) as u64));
                }
                assert forall|y: u64| #[trigger] ref_de(*o, y) implies ref_de(
                    r,
                    (y + off) as u64,
                ) by {
                    let j = choose|j: int| 0 <= j < e@.len() && ref_de(#[trigger] e@[j].1, y);
                    assert(ref_de(f@[j].1, (y + off) as u64));
                }
            }
            r
        },
        Objet::Flux(e, donnees) => {
            proof {
                assert(decreases_to!(*o => o->Flux_0));
            }
            proof {
                assert forall|i: int, y: u64|
                    0 <= i < e@.len() && #[trigger] ref_de(e@[i].1, y) implies y < BORNE_ID by {
                    assert(ref_de(*o, y));
                }
            }
            let nv = decale_entrees(e, off, Ghost(*o));
            let r = Objet::Flux(nv, crate::modele::copie_octets(donnees));
            proof {
                let f = r->Flux_0;
                assert forall|x: u64| #[trigger] ref_de(r, x) implies x >= off && ref_de(
                    *o,
                    (x - off) as u64,
                ) by {
                    let j = choose|j: int| 0 <= j < f@.len() && ref_de(#[trigger] f@[j].1, x);
                    assert(ref_de(e@[j].1, (x - off) as u64));
                }
                assert forall|y: u64| #[trigger] ref_de(*o, y) implies ref_de(
                    r,
                    (y + off) as u64,
                ) by {
                    let j = choose|j: int| 0 <= j < e@.len() && ref_de(#[trigger] e@[j].1, y);
                    assert(ref_de(f@[j].1, (y + off) as u64));
                }
            }
            r
        },
    }
}

/// Decale les references des valeurs d'entrees de dictionnaire.
#[verifier::loop_isolation(false)]
fn decale_entrees(e: &Vec<(String, Objet)>, off: u64, englobant: Ghost<Objet>) -> (r: Vec<
    (String, Objet),
>)
    requires
        off <= BORNE_ID,
        decreases_to!(englobant@ => *e),
        forall|i: int, y: u64|
            0 <= i < e@.len() && #[trigger] ref_de(e@[i].1, y) ==> y < BORNE_ID,
    ensures
        r@.len() == e@.len(),
        forall|i: int, x: u64|
            0 <= i < r@.len() && #[trigger] ref_de(r@[i].1, x) ==> x >= off && ref_de(
                e@[i].1,
                (x - off) as u64,
            ),
        forall|i: int, y: u64|
            0 <= i < e@.len() && #[trigger] ref_de(e@[i].1, y) ==> ref_de(
                r@[i].1,
                (y + off) as u64,
            ),
        forall|i: int|
            0 <= i < e@.len() ==> (#[trigger] r@[i]).0@ == e@[i].0@ && (r@[i].1 is Nom <==> e@[i].1
                is Nom) && (e@[i].1 matches Objet::Nom(nm) ==> (r@[i].1 matches Objet::Nom(nm2)
                && nm2@ == nm@)),
    decreases englobant@, 0int,
{
    let mut nv: Vec<(String, Objet)> = Vec::new();
    let mut i: usize = 0;
    while i < e.len()
        invariant
            nv@.len() == i,
            0 <= i <= e@.len(),
            forall|j: int, x: u64|
                0 <= j < i && #[trigger] ref_de(nv@[j].1, x) ==> x >= off && ref_de(
                    e@[j].1,
                    (x - off) as u64,
                ),
            forall|j: int, y: u64|
                0 <= j < i && #[trigger] ref_de(e@[j].1, y) ==> ref_de(
                    nv@[j].1,
                    (y + off) as u64,
                ),
            forall|j: int|
                0 <= j < i ==> (#[trigger] nv@[j]).0@ == e@[j].0@ && (nv@[j].1 is Nom <==> e@[j].1
                    is Nom) && (e@[j].1 matches Objet::Nom(nm) ==> (nv@[j].1 matches Objet::Nom(
                    nm2,
                ) && nm2@ == nm@)),
        decreases e@.len() - i,
    {
        proof {
            assert(decreases_to!(*e => e[i as int]));
            assert(decreases_to!(e[i as int] => e[i as int].1));
            assert(decreases_to!(englobant@ => e[i as int].1));
        }
        let element = &e[i].1;
        proof {
            assert forall|y: u64| #[trigger] ref_de(*element, y) implies y < BORNE_ID by {
                assert(ref_de(e@[i as int].1, y));
            }
        }
        let c = decale_objet(element, off);
        nv.push((e[i].0.clone(), c));
        i = i + 1;
    }
    nv
}

} // verus!

verus! {

/// Le total des pages d'une suite de documents.
pub open spec fn somme_pages(docs: Seq<Document>) -> int
    decreases docs.len(),
{
    if docs.len() == 0 {
        0
    } else {
        somme_pages(docs.drop_last()) + nombre_pages(docs.last())
    }
}

/// Le total des plus grands numeros d'objets d'une suite de documents.
pub open spec fn somme_max(docs: Seq<Document>) -> int
    decreases docs.len(),
{
    if docs.len() == 0 {
        0
    } else {
        somme_max(docs.drop_last()) + maximum_id(docs.last().objets@)
    }
}

/// L'ordre des pages d'une fusion : les pages de chaque document dans
/// leur ordre canonique, les documents dans l'ordre donne, chaque
/// identite decalee du total des maxima des documents precedents.
pub open spec fn pages_fusionnees(docs: Seq<Document>) -> Seq<u64>
    decreases docs.len(),
{
    if docs.len() == 0 {
        Seq::empty()
    } else {
        pages_fusionnees(docs.drop_last()) + pages_spec(docs.last()).map_values(
            |p: u64| (p + somme_max(docs.drop_last())) as u64,
        )
    }
}

/// Les sommes partielles des maxima croissent.
pub proof fn lemma_somme_max_monotone(docs: Seq<Document>, k: int)
    requires
        0 <= k <= docs.len(),
    ensures
        somme_max(docs.take(k)) <= somme_max(docs),
        somme_max(docs.take(k)) >= 0,
    decreases docs.len() - k,
{
    lemma_somme_max_positive(docs.take(k));
    if k < docs.len() {
        lemma_somme_max_monotone(docs, k + 1);
        assert(docs.take(k + 1).drop_last() =~= docs.take(k));
        assert(docs.take(k + 1).last() == docs[k]);
        lemma_maximum_id(docs[k].objets@);
    } else {
        assert(docs.take(k) =~= docs);
    }
}

pub proof fn lemma_somme_max_positive(docs: Seq<Document>)
    ensures
        somme_max(docs) >= 0,
    decreases docs.len(),
{
    if docs.len() > 0 {
        lemma_somme_max_positive(docs.drop_last());
        lemma_maximum_id(docs.last().objets@);
    }
}

/// Fusionne des documents dans l'ordre donne : les objets de chacun sont
/// renumerotes d'un decalage strictement croissant pour eviter toute
/// collision d'identites, les pages recoivent un parent neuf, et un arbre
/// de pages et un catalogue neufs les enchainent. Le catalogue fusionne
/// est rebati a neuf : les autres entrees des catalogues d'origine ne
/// sont pas reprises, leurs objets restant dans l'arene jusqu'au prochain
/// nettoyage. Une liste vide est refusee, comme une fusion dont les
/// numeros d'objets deborderaient.
#[verifier::loop_isolation(false)]
#[verifier::rlimit(100)]
pub fn pdf_merge(docs: &Vec<Document>) -> (r: Result<Document, Erreur>)
    requires
        forall|i: int| 0 <= i < docs@.len() ==> bien_forme(#[trigger] docs@[i]),
    ensures
        match r {
            Ok(m) => {
                &&& docs@.len() >= 1
                &&& bien_forme(m)
                &&& m.chiffrement is None
                &&& nombre_pages(m) == somme_pages(docs@)
                &&& pages_spec(m) == pages_fusionnees(docs@)
            },
            Err(e) => {
                &&& e == Erreur::Structurelle
                &&& (docs@.len() == 0 || somme_max(docs@) + 2 >= BORNE_ID || somme_pages(docs@)
                    > 0x7FFF_FFFF)
            },
        },
{
    if docs.len() == 0 {
        return Err(Erreur::Structurelle);
    }
    // Premier passage : le decalage final, donc les identites de l'arbre
    // et du catalogue neufs.
    let mut total: u64 = 0;
    let mut i: usize = 0;
    while i < docs.len()
        invariant
            0 <= i <= docs@.len(),
            forall|q: int| 0 <= q < docs@.len() ==> bien_forme(#[trigger] docs@[q]),
            total as int == somme_max(docs@.take(i as int)),
            total as int + 2 < BORNE_ID,
        decreases docs@.len() - i,
    {
        let maxi = max_id_exec(&docs[i]);
        proof {
            lemma_maximum_id(docs@[i as int].objets@);
            assert(docs@.take(i as int + 1).drop_last() =~= docs@.take(i as int));
            assert(docs@.take(i as int + 1).last() == docs@[i as int]);
        }
        if maxi >= BORNE_ID - 2 - total {
            proof {
                lemma_somme_max_monotone(docs@, i as int + 1);
            }
            return Err(Erreur::Structurelle);
        }
        total = total + maxi;
        i = i + 1;
    }
    proof {
        assert(docs@.take(docs@.len() as int) =~= docs@);
    }
    let racine_nv: u64 = total + 1;
    let cat_nv: u64 = total + 2;
    // Second passage : chaque document est decale puis verse, ses pages
    // reparentees au passage.
    let mut m = Document { objets: Vec::new(), racine: cat_nv, chiffrement: None };
    let mut pages_tot: Vec<u64> = Vec::new();
    let mut off: u64 = 0;
    let mut i: usize = 0;
    while i < docs.len()
        invariant
            0 <= i <= docs@.len(),
            forall|q: int| 0 <= q < docs@.len() ==> bien_forme(#[trigger] docs@[q]),
            total as int == somme_max(docs@),
            total as int + 2 < BORNE_ID,
            racine_nv == total + 1,
            cat_nv == total + 2,
            m.racine == cat_nv,
            m.chiffrement is None,
            off as int == somme_max(docs@.take(i as int)),
            off <= total,
            forall|j: int| 0 <= j < m.objets@.len() ==> 1 <= (#[trigger] m.objets@[j]).0 <= off,
            forall|a: int, b: int|
                0 <= a < b < m.objets@.len() ==> (#[trigger] m.objets@[a]).0 != (
                #[trigger] m.objets@[b]).0,
            forall|j: int, x: u64|
                0 <= j < m.objets@.len() && #[trigger] ref_de(m.objets@[j].1, x) ==> (contient_id(
                    m.objets@,
                    x,
                ) || x == racine_nv),
            pages_tot@.len() == somme_pages(docs@.take(i as int)),
            pages_tot@ == pages_fusionnees(docs@.take(i as int)),
            forall|q: int|
                0 <= q < pages_tot@.len() ==> est_dict_de_type(
                    m.objets@,
                    #[trigger] pages_tot@[q],
                    "Page"@,
                ),
        decreases docs@.len() - i,
    {
        let ghost m0 = m.objets@;
        let ghost pages0 = pages_tot@;
        let d = &docs[i];
        let maxi = max_id_exec(d);
        proof {
            lemma_maximum_id(d.objets@);
            assert(docs@.take(i as int + 1).drop_last() =~= docs@.take(i as int));
            assert(docs@.take(i as int + 1).last() == docs@[i as int]);
            lemma_somme_max_monotone(docs@, i as int + 1);
        }
        let pgs = d.pages_ordonnees();
        let mut w: usize = 0;
        while w < d.objets.len()
            invariant
                0 <= w <= d.objets@.len(),
                bien_forme(*d),
                pgs@ == pages_spec(*d),
                off as int + maxi as int <= total as int,
                maxi as int == maximum_id(d.objets@),
                total as int + 2 < BORNE_ID,
                racine_nv == total + 1,
                m.racine == cat_nv,
                m.chiffrement is None,
                m.objets@.len() == m0.len() + w,
                forall|j: int| 0 <= j < m0.len() ==> (#[trigger] m.objets@[j]) == m0[j],
                forall|j: int| 0 <= j < m0.len() ==> 1 <= (#[trigger] m.objets@[j]).0 <= off,
                forall|v: int|
                    0 <= v < w ==> (#[trigger] m.objets@[m0.len() + v]).0 == d.objets@[v].0 + off,
                forall|v: int, x: u64|
                    0 <= v < w && #[trigger] ref_de(m.objets@[m0.len() + v].1, x) ==> (x == racine_nv
                        || (x >= off && contient_id(d.objets@, (x - off) as u64))),
                forall|v: int|
                    0 <= v < w ==> est_page_conservee(
                        d.objets@[v].1,
                        (#[trigger] m.objets@[m0.len() + v]).1,
                    ),
                forall|a: int, b: int|
                    0 <= a < b < m.objets@.len() ==> (#[trigger] m.objets@[a]).0 != (
                    #[trigger] m.objets@[b]).0,
                forall|q: int|
                    0 <= q < pages_tot@.len() ==> est_dict_de_type(
                        m0,
                        #[trigger] pages_tot@[q],
                        "Page"@,
                    ),
            decreases d.objets@.len() - w,
        {
            let (id, o) = &d.objets[w];
            let id = *id;
            proof {
                assert forall|y: u64| #[trigger] ref_de(*o, y) implies y < BORNE_ID by {
                    assert(ref_de(d.objets@[w as int].1, y));
                    assert(contient_id(d.objets@, y));
                    crate::modele::lemma_cherche_indice(d.objets@, y);
                }
            }
            let mut nouveau = decale_objet(o, off);
            // une page recoit tout de suite son parent neuf
            let ghost avant_parent = nouveau;
            let est_page_ici = contient_u64(&pgs, id);
            if est_page_ici {
                match nouveau {
                    Objet::Dictionnaire(mut ne) => {
                        proof {
                            lemma_cles_distinctes();
                        }
                        dict_definir(&mut ne, "Parent", Objet::Reference(racine_nv));
                        nouveau = Objet::Dictionnaire(ne);
                    },
                    autre => {
                        nouveau = autre;
                    },
                }
            }
            proof {
                crate::modele::lemma_cherche_unique(d.objets@, w as int);
                lemma_maximum_id(d.objets@);
                assert(id + off <= total);
                assert forall|x: u64| #[trigger] ref_de(nouveau, x) implies (x == racine_nv || (x
                    >= off && contient_id(d.objets@, (x - off) as u64))) by {
                    if nouveau == avant_parent {
                        assert(ref_de(avant_parent, x));
                        assert(ref_de(d.objets@[w as int].1, (x - off) as u64));
                        assert(contient_id(d.objets@, (x - off) as u64));
                    } else {
                        let ne = nouveau->Dictionnaire_0;
                        let jj = choose|jj: int|
                            0 <= jj < ne@.len() && ref_de(#[trigger] ne@[jj].1, x);
                        if ne@[jj].1 == Objet::Reference(racine_nv) && ne@[jj].0@ == "Parent"@ {
                            assert(x == racine_nv);
                        } else {
                            assert(ref_de(avant_parent->Dictionnaire_0@[jj].1, x));
                            assert(ref_de(avant_parent, x));
                            assert(ref_de(d.objets@[w as int].1, (x - off) as u64));
                            assert(contient_id(d.objets@, (x - off) as u64));
                        }
                    }
                }
                assert(est_page_conservee(d.objets@[w as int].1, nouveau)) by {
                    lemma_cles_distinctes();
                    let orig = d.objets@[w as int].1;
                    if orig is Dictionnaire {
                        let e = orig->Dictionnaire_0;
                        let fd = avant_parent->Dictionnaire_0;
                        lemma_noms_valeur_cle(e@, fd@, "Type"@);
                        if nouveau != avant_parent {
                            assert(valeur_cle(nouveau->Dictionnaire_0@, "Type"@) == valeur_cle(
                                fd@,
                                "Type"@,
                            ));
                        }
                    }
                }
            }
            m.objets.push((id + off, nouveau));
            proof {
                assert forall|a: int, b: int|
                    0 <= a < b < m.objets@.len() implies (#[trigger] m.objets@[a]).0 != (
                #[trigger] m.objets@[b]).0 by {
                    if b == m.objets@.len() - 1 {
                        if a >= m0.len() {
                            assert(crate::modele::ids_uniques(d.objets@));
                            let v = a - m0.len();
                            assert((m.objets@[m0.len() + v]).0 == d.objets@[v].0 + off);
                        } else {
                            assert(m.objets@[a].0 <= off);
                            assert(d.objets@[w as int].0 >= 1);
                        }
                    }
                }
            }
            w = w + 1;
        }
        // les pages de ce document, decalees, rejoignent la liste.
        let ghost m1 = m.objets@;
        let mut q: usize = 0;
        while q < pgs.len()
            invariant
                0 <= q <= pgs@.len(),
                bien_forme(*d),
                pgs@ == pages_spec(*d),
                m.objets@ == m1,
                m.racine == cat_nv,
                m.chiffrement is None,
                off as int + maxi as int <= total as int,
                maxi as int == maximum_id(d.objets@),
                pages_tot@.len() == pages0.len() + q,
                forall|j: int| 0 <= j < pages0.len() ==> (#[trigger] pages_tot@[j]) == pages0[j],
                forall|v: int|
                    0 <= v < q ==> (#[trigger] pages_tot@[pages0.len() + v]) == pgs@[v] + off,
                forall|j: int|
                    0 <= j < pages0.len() ==> est_dict_de_type(
                        m0,
                        #[trigger] pages_tot@[j],
                        "Page"@,
                    ),
            decreases pgs@.len() - q,
        {
            let pid = pgs[q];
            proof {
                crate::modele::lemma_cherche_indice(d.objets@, pid);
            }
            pages_tot.push(pid + off);
            q = q + 1;
        }
        proof {
            // Les recherches dans la nouvelle arene : le prefixe garde ses
            // valeurs, le bloc neuf porte les objets decales.
            assert forall|j: int| 0 <= j < m.objets@.len() implies 1 <= (
            #[trigger] m.objets@[j]).0 <= off + maxi by {
                if j >= m0.len() {
                    let v = j - m0.len();
                    assert(m.objets@[m0.len() + v].0 == d.objets@[v].0 + off);
                    lemma_maximum_id(d.objets@);
                }
            }
            // Toute identite du document source se retrouve, decalee.
            assert forall|y: u64| contient_id(d.objets@, y) implies contient_id(
                m.objets@,
                (y + off) as u64,
            ) by {
                crate::modele::lemma_cherche_indice(d.objets@, y);
                let v = choose|v: int|
                    0 <= v < d.objets@.len() && (#[trigger] d.objets@[v]).0 == y && cherche_spec(
                        d.objets@,
                        y,
                    ) == Some(d.objets@[v].1);
                assert(m.objets@[m0.len() + v].0 == y + off);
                crate::modele::lemma_indice_cherche(m.objets@, m0.len() + v);
            }
            assert forall|j: int, x: u64|
                0 <= j < m.objets@.len() && #[trigger] ref_de(m.objets@[j].1, x) implies (
            contient_id(m.objets@, x) || x == racine_nv) by {
                if j < m0.len() {
                    assert(m.objets@[j] == m0[j]);
                    assert(ref_de(m0[j].1, x));
                    if x != racine_nv {
                        assert(contient_id(m0, x));
                        crate::modele::lemma_cherche_indice(m0, x);
                        let v = choose|v: int|
                            0 <= v < m0.len() && (#[trigger] m0[v]).0 == x && cherche_spec(m0, x)
                                == Some(m0[v].1);
                        crate::modele::lemma_indice_cherche(m.objets@, v);
                    }
                } else {
                    if x != racine_nv {
                        let v = j - m0.len();
                        assert(ref_de(m.objets@[m0.len() + v].1, x));
                        assert(x >= off && contient_id(d.objets@, (x - off) as u64));
                        let y: u64 = (x - off) as u64;
                        assert(contient_id(m.objets@, (y + off) as u64));
                        assert((y + off) as u64 == x);
                    }
                }
            }
            // Les pages, anciennes et neuves, restent des pages.
            assert forall|j: int| 0 <= j < pages_tot@.len() implies est_dict_de_type(
                m.objets@,
                #[trigger] pages_tot@[j],
                "Page"@,
            ) by {
                if j < pages0.len() {
                    assert(est_dict_de_type(m0, pages_tot@[j], "Page"@));
                    crate::modele::lemma_cherche_indice(m0, pages_tot@[j]);
                    let v = choose|v: int|
                        0 <= v < m0.len() && (#[trigger] m0[v]).0 == pages_tot@[j] && cherche_spec(
                            m0,
                            pages_tot@[j],
                        ) == Some(m0[v].1);
                    crate::modele::lemma_cherche_unique(m.objets@, v);
                } else {
                    let vv = j - pages0.len();
                    let pid = pgs@[vv];
                    assert((pages_tot@[pages0.len() + vv]) == pgs@[vv] + off);
                    assert(pages_tot@[j] == pid + off);
                    assert(est_dict_de_type(d.objets@, pid, "Page"@));
                    crate::modele::lemma_cherche_indice(d.objets@, pid);
                    let v = choose|v: int|
                        0 <= v < d.objets@.len() && (#[trigger] d.objets@[v]).0 == pid
                            && cherche_spec(d.objets@, pid) == Some(d.objets@[v].1);
                    assert(d.objets@[v].0 == pid);
                    assert((m.objets@[m0.len() + v]).0 == d.objets@[v].0 + off);
                    crate::modele::lemma_cherche_unique(m.objets@, m0.len() + v);
                    assert(est_page_conservee(d.objets@[v].1, (m.objets@[m0.len() + v]).1));
                    lemma_page_conservee_valeur(d.objets@[v].1, (m.objets@[m0.len() + v]).1);
                }
            }
            assert(pages_tot@.len() == somme_pages(docs@.take(i as int + 1))) by {
                assert(docs@.take(i as int + 1).drop_last() =~= docs@.take(i as int));
                assert(docs@.take(i as int + 1).last() == docs@[i as int]);
            }
            assert(pages_tot@ == pages_fusionnees(docs@.take(i as int + 1))) by {
                assert(docs@.take(i as int + 1).drop_last() =~= docs@.take(i as int));
                assert(docs@.take(i as int + 1).last() == docs@[i as int]);
                let offg = somme_max(docs@.take(i as int));
                let attendu = pages_fusionnees(docs@.take(i as int)) + pages_spec(
                    docs@[i as int],
                ).map_values(|p: u64| (p + offg) as u64);
                assert(pages_fusionnees(docs@.take(i as int + 1)) == attendu);
                assert forall|j: int| 0 <= j < pages_tot@.len() implies pages_tot@[j]
                    == attendu[j] by {
                    if j >= pages0.len() {
                        let v = j - pages0.len();
                        assert(pages_tot@[pages0.len() + v] == pgs@[v] + off);
                        assert(attendu[j] == (pgs@[v] + offg) as u64);
                    }
                }
                assert(pages_tot@ =~= attendu);
            }
        }
        off = off + maxi;
        i = i + 1;
    }
    proof {
        assert(docs@.take(docs@.len() as int) =~= docs@);
    }
    // L'arbre des pages et le catalogue neufs.
    proof {
        reveal_strlit("Type");
        reveal_strlit("Pages");
        reveal_strlit("Kids");
        reveal_strlit("Count");
        reveal_strlit("Catalog");
        lemma_cles_distinctes();
    }
    if pages_tot.len() > 0x7FFF_FFFF {
        return Err(Erreur::Structurelle);
    }
    let nb: i64 = pages_tot.len() as i64;
    let mut kids: Vec<Objet> = Vec::new();
    let mut q: usize = 0;
    while q < pages_tot.len()
        invariant
            0 <= q <= pages_tot@.len(),
            kids@.len() == q,
            forall|j: int|
                0 <= j < q ==> (#[trigger] kids@[j]) == Objet::Reference(pages_tot@[j]),
        decreases pages_tot@.len() - q,
    {
        kids.push(Objet::Reference(pages_tot[q]));
        q = q + 1;
    }
    let ghost gkids = kids@;
    let mut racine_e: Vec<(String, Objet)> = Vec::new();
    racine_e.push(("Type".to_owned(), Objet::Nom("Pages".to_owned())));
    racine_e.push(("Kids".to_owned(), Objet::Tableau(kids)));
    racine_e.push(("Count".to_owned(), Objet::Entier(nb)));
    let ghost gracine = racine_e@;
    let ghost m2 = m.objets@;
    m.objets.push((racine_nv, Objet::Dictionnaire(racine_e)));
    let mut cat_e: Vec<(String, Objet)> = Vec::new();
    cat_e.push(("Type".to_owned(), Objet::Nom("Catalog".to_owned())));
    cat_e.push(("Pages".to_owned(), Objet::Reference(racine_nv)));
    let ghost gcat = cat_e@;
    m.objets.push((cat_nv, Objet::Dictionnaire(cat_e)));
    proof {
        let so = m.objets@;
        let nf = m2.len() as int;
        assert forall|a: int, b: int| 0 <= a < b < so.len() implies (#[trigger] so[a]).0 != (
        #[trigger] so[b]).0 by {
            if b < nf {
                assert(so[a] == m2[a] && so[b] == m2[b]);
            } else if a < nf {
                assert(so[a] == m2[a]);
                assert(m2[a].0 <= off);
            }
        }
        assert(crate::modele::ids_uniques(so));
        assert(ids_bornes(so)) by {
            assert forall|j: int| 0 <= j < so.len() implies 1 <= (#[trigger] so[j]).0
                < BORNE_ID by {
                if j < nf {
                    assert(so[j] == m2[j]);
                }
            }
        }
        assert forall|j: int, x: u64|
            0 <= j < so.len() && #[trigger] ref_de(so[j].1, x) implies contient_id(so, x) by {
            assert(so[nf].0 == racine_nv && so[nf + 1].0 == cat_nv);
            if x == racine_nv {
                crate::modele::lemma_indice_cherche(so, nf);
            } else if x == cat_nv {
                crate::modele::lemma_indice_cherche(so, nf + 1);
            } else if j < nf {
                assert(so[j] == m2[j]);
                assert(ref_de(m2[j].1, x));
                assert(contient_id(m2, x));
                crate::modele::lemma_cherche_indice(m2, x);
                let v = choose|v: int|
                    0 <= v < m2.len() && (#[trigger] m2[v]).0 == x && cherche_spec(m2, x) == Some(
                        m2[v].1,
                    );
                crate::modele::lemma_indice_cherche(so, v);
            } else if j == nf {
                let u = choose|u: int| 0 <= u < gracine.len() && ref_de(#[trigger] gracine[u].1, x);
                if u == 1 {
                    let z = choose|z: int| 0 <= z < gkids.len() && ref_de(#[trigger] gkids[z], x);
                    assert(x == pages_tot@[z]);
                    assert(est_dict_de_type(m2, x, "Page"@));
                    assert(contient_id(m2, x));
                    crate::modele::lemma_cherche_indice(m2, x);
                    let v = choose|v: int|
                        0 <= v < m2.len() && (#[trigger] m2[v]).0 == x && cherche_spec(m2, x)
                            == Some(m2[v].1);
                    crate::modele::lemma_indice_cherche(so, v);
                } else {
                    assert(false);
                }
            } else {
                let u = choose|u: int| 0 <= u < gcat.len() && ref_de(#[trigger] gcat[u].1, x);
                assert(x == racine_nv);
                assert(false);
            }
        }
        assert(ferme(so));
        crate::modele::lemma_cherche_unique(so, nf + 1);
        crate::modele::lemma_cherche_unique(so, nf);
        reveal_with_fuel(valeur_cle, 5);
        assert(gcat.drop_first()[0] == gcat[1]);
        assert(valeur_cle(gcat, "Type"@) == Some(gcat[0].1));
        assert(valeur_cle(gcat, "Pages"@) == Some(gcat[1].1));
        assert(est_dict_de_type(so, cat_nv, "Catalog"@));
        assert(id_pages(m) == Some(racine_nv));
        assert(gracine.drop_first()[0] == gracine[1]);
        assert(gracine.drop_first().drop_first()[0] == gracine[2]);
        assert(valeur_cle(gracine, "Type"@) == Some(gracine[0].1));
        assert(valeur_cle(gracine, "Kids"@) == Some(gracine[1].1));
        assert(valeur_cle(gracine, "Count"@) == Some(gracine[2].1));
        assert(est_dict_de_type(so, racine_nv, "Pages"@));
        assert forall|k: int| 0 <= k < gkids.len() implies ((#[trigger] gkids[k])
            matches Objet::Reference(rr) && est_dict_de_type(so, rr, "Page"@)) by {
            let rr = pages_tot@[k];
            assert(est_dict_de_type(m2, rr, "Page"@));
            crate::modele::lemma_cherche_indice(m2, rr);
            let v = choose|v: int|
                0 <= v < m2.len() && (#[trigger] m2[v]).0 == rr && cherche_spec(m2, rr) == Some(
                    m2[v].1,
                );
            crate::modele::lemma_cherche_unique(so, v);
        }
        assert(crate::modele::kids_de(m) == gkids);
        assert(pages_spec(m).len() == pages_tot@.len());
        assert(bien_forme(m));
        assert forall|j: int| 0 <= j < pages_tot@.len() implies pages_spec(m)[j]
            == pages_tot@[j] by {
            assert(gkids[j] == Objet::Reference(pages_tot@[j]));
        }
        assert(pages_spec(m) =~= pages_tot@);
        assert(pages_spec(m) == pages_fusionnees(docs@));
    }
    Ok(m)
}

/// Des entrees aux cles identiques et aux noms conserves donnent des
/// recherches de noms identiques.
pub proof fn lemma_noms_valeur_cle(e: Seq<(String, Objet)>, f: Seq<(String, Objet)>, k: Seq<char>)
    requires
        f.len() == e.len(),
        forall|i: int|
            0 <= i < e.len() ==> (#[trigger] f[i]).0@ == e[i].0@ && (f[i].1 is Nom <==> e[i].1
                is Nom) && (e[i].1 matches Objet::Nom(nm) ==> (f[i].1 matches Objet::Nom(nm2)
                && nm2@ == nm@)),
    ensures
        match (valeur_cle(e, k), valeur_cle(f, k)) {
            (Some(Objet::Nom(n1)), Some(Objet::Nom(n2))) => n1@ == n2@,
            (Some(Objet::Nom(_)), _) => false,
            (None, None) => true,
            (Some(_), Some(_)) => true,
            _ => false,
        },
    decreases e.len(),
{
    if e.len() > 0 {
        assert(f[0].0@ == e[0].0@);
        if e[0].0@ != k {
            assert forall|i: int|
                0 <= i < e.drop_first().len() implies (#[trigger] f.drop_first()[i]).0@
                == e.drop_first()[i].0@ && (f.drop_first()[i].1 is Nom <==> e.drop_first()[i].1
                is Nom) && (e.drop_first()[i].1 matches Objet::Nom(nm) ==> (f.drop_first()[i].1
                matches Objet::Nom(nm2) && nm2@ == nm@)) by {
                assert(f.drop_first()[i] == f[i + 1]);
                assert(e.drop_first()[i] == e[i + 1]);
            }
            lemma_noms_valeur_cle(e.drop_first(), f.drop_first(), k);
        }
    }
}

/// La forme de page est conservee : un dictionnaire le reste, cles et
/// valeurs `Type` comprises.
pub open spec fn est_page_conservee(avant: Objet, apres: Objet) -> bool {
    avant matches Objet::Dictionnaire(e) ==> {
        &&& apres matches Objet::Dictionnaire(f)
        &&& (match (valeur_cle(e@, "Type"@), valeur_cle(f@, "Type"@)) {
            (Some(Objet::Nom(n1)), Some(Objet::Nom(n2))) => n1@ == n2@,
            (Some(Objet::Nom(_)), _) => false,
            _ => true,
        })
    }
}

/// D'une page conservee on retient qu'elle reste un dictionnaire de type
/// Page.
pub proof fn lemma_page_conservee_valeur(avant: Objet, apres: Objet)
    requires
        est_page_conservee(avant, apres),
    ensures
        (avant is Dictionnaire && valeur_cle(avant->Dictionnaire_0@, "Type"@) is Some && valeur_cle(
            avant->Dictionnaire_0@,
            "Type"@,
        )->Some_0 is Nom) ==> {
            &&& apres is Dictionnaire
            &&& valeur_cle(apres->Dictionnaire_0@, "Type"@) is Some
            &&& valeur_cle(apres->Dictionnaire_0@, "Type"@)->Some_0 is Nom
            &&& valeur_cle(apres->Dictionnaire_0@, "Type"@)->Some_0->Nom_0@ == valeur_cle(
                avant->Dictionnaire_0@,
                "Type"@,
            )->Some_0->Nom_0@
        },
{
}

} // verus!

verus! {

/// Les octets gagnes par une compression : jamais negatifs, la taille
/// d'arrivee etant soustraite avec plancher a zero.
pub fn octets_economises(avant: u64, apres: u64) -> (r: u64)
    ensures
        r == if avant >= apres {
            avant - apres
        } else {
            0
        },
        r >= 0,
{
    if avant >= apres {
        avant - apres
    } else {
        0
    }
}

/// Nettoyage structurel : les flux sans contenu sont remplaces par nul,
/// puis tout objet que le catalogue n'atteint plus est retire. Les pages
/// et leur ordre sont conserves. Le renumerotage dense et l'empaquetage
/// des flux appartiennent a la sauvegarde.
#[verifier::loop_isolation(false)]
#[verifier::rlimit(100)]
pub fn pdf_compresser(d: &mut Document) -> (r: Result<(), Erreur>)
    requires
        bien_forme(*old(d)),
    ensures
        r is Ok,
        bien_forme(*final(d)),
        final(d).racine == old(d).racine,
        final(d).chiffrement == old(d).chiffrement,
        pages_spec(*final(d)) == pages_spec(*old(d)),
        final(d).objets@.len() <= old(d).objets@.len(),
        forall|x: u64|
            #[trigger] contient_id(final(d).objets@, x) ==> contient_id(old(d).objets@, x),
        forall|x: u64|
            #[trigger] contient_id(final(d).objets@, x) ==> (cherche_spec(final(d).objets@, x)
                == cherche_spec(old(d).objets@, x) || (cherche_spec(final(d).objets@, x) == Some(
                Objet::Nul,
            ) && (cherche_spec(old(d).objets@, x) matches Some(f) && f matches Objet::Flux(_, dd)
                && dd@.len() == 0))),
        forall|x: u64|
            ((#[trigger] cherche_spec(final(d).objets@, x)) is Some && cherche_spec(
                final(d).objets@,
                x,
            )->Some_0 is Flux) ==> cherche_spec(final(d).objets@, x)->Some_0->Flux_1@.len() > 0,
        forall|x: u64|
            #[trigger] contient_id(final(d).objets@, x) ==> atteignable(
                old(d).objets@,
                old(d).racine,
                x,
            ),
{
    let ghost d0 = *d;
    // Les flux vides deviennent nuls.
    let mut i: usize = 0;
    while i < d.objets.len()
        invariant
            0 <= i <= d.objets@.len(),
            d.racine == d0.racine,
            d.chiffrement == d0.chiffrement,
            d.objets@.len() == d0.objets@.len(),
            forall|j: int|
                0 <= j < d.objets@.len() ==> (#[trigger] d.objets@[j]).0 == d0.objets@[j].0,
            forall|j: int|
                0 <= j < d.objets@.len() ==> ((#[trigger] d.objets@[j]) == d0.objets@[j] || (
                d.objets@[j].1 == Objet::Nul && (d0.objets@[j].1 matches Objet::Flux(_, dd)
                    && dd@.len() == 0))),
            forall|j: int|
                0 <= j < i && (d0.objets@[j].1 matches Objet::Flux(_, dd) && dd@.len() == 0)
                    ==> (#[trigger] d.objets@[j]).1 == Objet::Nul,
        decreases d.objets@.len() - i,
    {
        let vide = match &d.objets[i].1 {
            Objet::Flux(_, contenu) => contenu.len() == 0,
            _ => false,
        };
        if vide {
            let id = d.objets[i].0;
            let mut portee: (u64, Objet) = (id, Objet::Nul);
            vstd::pervasive::VecAdditionalExecFns::set_and_swap(&mut d.objets, i, &mut portee);
        }
        i = i + 1;
    }
    proof {
        // L'arbre des pages ne passe par aucun flux : il tient toujours.
        assert(crate::modele::ids_uniques(d.objets@)) by {
            assert forall|a: int, b: int|
                0 <= a < b < d.objets@.len() implies (#[trigger] d.objets@[a]).0 != (
            #[trigger] d.objets@[b]).0 by {
                assert(d.objets@[a].0 == d0.objets@[a].0);
                assert(d.objets@[b].0 == d0.objets@[b].0);
            }
        }
        assert(ids_bornes(d.objets@)) by {
            assert forall|j: int| 0 <= j < d.objets@.len() implies 1 <= (
            #[trigger] d.objets@[j]).0 < BORNE_ID by {
                assert(d.objets@[j].0 == d0.objets@[j].0);
            }
        }
        assert forall|x: u64| #[trigger] contient_id(d.objets@, x) == contient_id(
            d0.objets@,
            x,
        ) by {
            if contient_id(d.objets@, x) {
                crate::modele::lemma_cherche_indice(d.objets@, x);
                let v = choose|v: int|
                    0 <= v < d.objets@.len() && (#[trigger] d.objets@[v]).0 == x && cherche_spec(
                        d.objets@,
                        x,
                    ) == Some(d.objets@[v].1);
                crate::modele::lemma_indice_cherche(d0.objets@, v);
            }
            if contient_id(d0.objets@, x) {
                crate::modele::lemma_cherche_indice(d0.objets@, x);
                let v = choose|v: int|
                    0 <= v < d0.objets@.len() && (#[trigger] d0.objets@[v]).0 == x && cherche_spec(
                        d0.objets@,
                        x,
                    ) == Some(d0.objets@[v].1);
                crate::modele::lemma_indice_cherche(d.objets@, v);
            }
        }
        assert(ferme(d.objets@)) by {
            assert forall|j: int, x: u64|
                0 <= j < d.objets@.len() && #[trigger] ref_de(d.objets@[j].1, x) implies
                contient_id(d.objets@, x) by {
                if d.objets@[j] == d0.objets@[j] {
                    assert(ref_de(d0.objets@[j].1, x));
                } else {
                    assert(!ref_de(Objet::Nul, x));
                }
            }
        }
        assert(lectures_arbre_intactes(d0.objets@, d.objets@)) by {
            assert forall|x: u64|
                (#[trigger] cherche_spec(d.objets@, x)) is Some && cherche_spec(d0.objets@, x)
                    is Some && cherche_spec(d0.objets@, x)->Some_0 is Dictionnaire implies
                cherche_spec(d.objets@, x) == cherche_spec(d0.objets@, x) by {
                crate::modele::lemma_cherche_indice(d0.objets@, x);
                let v = choose|v: int|
                    0 <= v < d0.objets@.len() && (#[trigger] d0.objets@[v]).0 == x && cherche_spec(
                        d0.objets@,
                        x,
                    ) == Some(d0.objets@[v].1);
                crate::modele::lemma_cherche_unique(d.objets@, v);
            }
        }
        lemma_arbre_intact(d0, *d);
        assert(bien_forme(*d));
        assert(pages_spec(*d) == pages_spec(d0));
        // chaque valeur est gardee telle quelle, ou annulee quand c'etait
        // un flux vide
        assert forall|x: u64| #[trigger] contient_id(d.objets@, x) implies (cherche_spec(
            d.objets@,
            x,
        ) == cherche_spec(d0.objets@, x) || (cherche_spec(d.objets@, x) == Some(Objet::Nul) && (
        cherche_spec(d0.objets@, x) matches Some(f) && f matches Objet::Flux(_, dd) && dd@.len()
            == 0))) by {
            crate::modele::lemma_cherche_indice(d.objets@, x);
            let v = choose|v: int|
                0 <= v < d.objets@.len() && (#[trigger] d.objets@[v]).0 == x && cherche_spec(
                    d.objets@,
                    x,
                ) == Some(d.objets@[v].1);
            crate::modele::lemma_cherche_unique(d0.objets@, v);
        }
    }
    // Retire ce que le catalogue n'atteint plus.
    let ghost d1 = *d;
    let mut graines: Vec<u64> = Vec::new();
    graines.push(d.racine);
    let garder = cloture(d, graines);
    proof {
        assert(garder@.contains(d.racine)) by {
            assert(graines@[0] == d.racine);
        }
    }
    let ghost anciens = d1.objets@;
    let mut nouveaux: Vec<(u64, Objet)> = Vec::new();
    let mut k: usize = 0;
    while k < d.objets.len()
        invariant
            d.racine == d1.racine,
            d.chiffrement == d1.chiffrement,
            d.objets@.len() == anciens.len(),
            bien_forme(d1),
            clos_par_refs(anciens, garder@),
            garder@.contains(d1.racine),
            forall|j: int|
                0 <= j < garder@.len() ==> graines@.contains(#[trigger] garder@[j]) || contient_id(
                    anciens,
                    garder@[j],
                ),
            graines@ =~= seq![d1.racine],
            0 <= k <= anciens.len(),
            nouveaux@.len() <= k,
            forall|j: int| k <= j < anciens.len() ==> (#[trigger] d.objets@[j]) == anciens[j],
            forall|j: int|
                0 <= j < nouveaux@.len() ==> garder@.contains((#[trigger] nouveaux@[j]).0),
            forall|j: int|
                #![trigger nouveaux@[j]]
                0 <= j < nouveaux@.len() ==> exists|w: int|
                    0 <= w < k && (#[trigger] anciens[w]) == nouveaux@[j],
            forall|a: int, b: int|
                0 <= a < b < nouveaux@.len() ==> (#[trigger] nouveaux@[a]).0 != (
                #[trigger] nouveaux@[b]).0,
            forall|w: int|
                0 <= w < k && garder@.contains((#[trigger] anciens[w]).0) ==> contient_id(
                    nouveaux@,
                    anciens[w].0,
                ),
        decreases anciens.len() - k,
    {
        let id = d.objets[k].0;
        let ghost avant = nouveaux@;
        if contient_u64(&garder, id) {
            proof {
                assert forall|j: int| 0 <= j < avant.len() implies (#[trigger] avant[j].0)
                    != id by {
                    if avant[j].0 == id {
                        let w = choose|w: int| 0 <= w < k && (#[trigger] anciens[w]) == avant[j];
                        assert(crate::modele::ids_uniques(anciens));
                        assert(anciens[w].0 == anciens[k as int].0);
                        assert(false);
                    }
                }
            }
            let mut portee: (u64, Objet) = (id, Objet::Nul);
            vstd::pervasive::VecAdditionalExecFns::set_and_swap(&mut d.objets, k, &mut portee);
            proof {
                assert(portee == anciens[k as int]);
                crate::modele::lemma_cherche_push(avant, portee);
            }
            nouveaux.push(portee);
            proof {
                assert forall|w: int|
                    0 <= w < k + 1 && garder@.contains((#[trigger] anciens[w]).0) implies
                    contient_id(nouveaux@, anciens[w].0) by {
                    if w < k {
                        assert(contient_id(avant, anciens[w].0));
                    } else {
                        assert(nouveaux@[avant.len() as int].0 == id);
                        crate::modele::lemma_indice_cherche(nouveaux@, avant.len() as int);
                    }
                }
                assert forall|j: int|
                    #![trigger nouveaux@[j]]
                    0 <= j < nouveaux@.len() implies exists|w: int|
                    0 <= w < k + 1 && (#[trigger] anciens[w]) == nouveaux@[j] by {
                    if j < avant.len() {
                        let w = choose|w: int| 0 <= w < k && (#[trigger] anciens[w]) == avant[j];
                        assert(anciens[w] == nouveaux@[j]);
                    } else {
                        assert(anciens[k as int] == nouveaux@[j]);
                    }
                }
            }
        } else {
            proof {
                assert forall|w: int|
                    0 <= w < k + 1 && garder@.contains((#[trigger] anciens[w]).0) implies
                    contient_id(nouveaux@, anciens[w].0) by {
                    if w < k {
                    } else {
                        assert(!garder@.contains(anciens[k as int].0));
                    }
                }
            }
        }
        k = k + 1;
    }
    d.objets = nouveaux;
    proof {
        let no = d.objets@;
        assert(crate::modele::ids_uniques(no));
        assert(ids_bornes(no)) by {
            assert forall|j: int| 0 <= j < no.len() implies 1 <= (#[trigger] no[j]).0
                < BORNE_ID by {
                let w = choose|w: int|
                    0 <= w < anciens.len() && (#[trigger] anciens[w]) == no[j];
            }
        }
        lemma_sous_arene(anciens, no);
        assert(ferme(no)) by {
            assert forall|j: int, x: u64|
                0 <= j < no.len() && #[trigger] ref_de(no[j].1, x) implies contient_id(no, x) by {
                let w = choose|w: int| 0 <= w < anciens.len() && (#[trigger] anciens[w]) == no[j];
                assert(ref_de(anciens[w].1, x));
                assert(garder@.contains(anciens[w].0));
                assert(garder@.contains(x));
                assert(contient_id(anciens, x));
                crate::modele::lemma_cherche_indice(anciens, x);
                let u = choose|u: int|
                    0 <= u < anciens.len() && (#[trigger] anciens[u]).0 == x && cherche_spec(
                        anciens,
                        x,
                    ) == Some(anciens[u].1);
                assert(contient_id(no, anciens[u].0));
            }
        }
        // l'arbre des pages survit a l'elagage : tout y est atteignable.
        assert(contient_id(no, d1.racine)) by {
            crate::modele::lemma_cherche_indice(anciens, d1.racine);
            let w = choose|w: int|
                0 <= w < anciens.len() && (#[trigger] anciens[w]).0 == d1.racine && cherche_spec(
                    anciens,
                    d1.racine,
                ) == Some(anciens[w].1);
            assert(garder@.contains(anciens[w].0));
            assert(contient_id(no, anciens[w].0));
        }
        assert(cherche_spec(no, d1.racine) == cherche_spec(anciens, d1.racine));
        let p = id_pages(d1)->Some_0;
        assert(garder@.contains(p)) by {
            crate::modele::lemma_cherche_indice(anciens, d1.racine);
            let v = choose|v: int|
                0 <= v < anciens.len() && (#[trigger] anciens[v]).0 == d1.racine && cherche_spec(
                    anciens,
                    d1.racine,
                ) == Some(anciens[v].1);
            assert(ref_de(anciens[v].1, p)) by {
                let ce = anciens[v].1->Dictionnaire_0;
                lemma_valeur_cle_ref(ce@, "Pages"@, p);
            }
        }
        assert(contient_id(no, p)) by {
            crate::modele::lemma_cherche_indice(anciens, p);
            let u = choose|u: int|
                0 <= u < anciens.len() && (#[trigger] anciens[u]).0 == p && cherche_spec(
                    anciens,
                    p,
                ) == Some(anciens[u].1);
            assert(contient_id(no, anciens[u].0));
        }
        assert(cherche_spec(no, p) == cherche_spec(anciens, p));
        let pe = cherche_spec(anciens, p)->Some_0->Dictionnaire_0;
        let kids = valeur_cle(pe@, "Kids"@)->Some_0->Tableau_0;
        assert forall|kk: int| 0 <= kk < kids@.len() implies ((#[trigger] kids@[kk])
            matches Objet::Reference(rr) && est_dict_de_type(no, rr, "Page"@)) by {
            let rr = kids@[kk]->Reference_0;
            assert(est_dict_de_type(anciens, rr, "Page"@));
            assert(garder@.contains(rr)) by {
                crate::modele::lemma_cherche_indice(anciens, p);
                let u = choose|u: int|
                    0 <= u < anciens.len() && (#[trigger] anciens[u]).0 == p && cherche_spec(
                        anciens,
                        p,
                    ) == Some(anciens[u].1);
                assert(ref_de(anciens[u].1, rr)) by {
                    assert(ref_de(kids@[kk], rr));
                    assert(ref_de(valeur_cle(pe@, "Kids"@)->Some_0, rr));
                    lemma_valeur_cle_ref2(pe@, "Kids"@, rr);
                }
            }
            assert(contient_id(no, rr)) by {
                crate::modele::lemma_cherche_indice(anciens, rr);
                let u = choose|u: int|
                    0 <= u < anciens.len() && (#[trigger] anciens[u]).0 == rr && cherche_spec(
                        anciens,
                        rr,
                    ) == Some(anciens[u].1);
                assert(contient_id(no, anciens[u].0));
            }
            assert(cherche_spec(no, rr) == cherche_spec(anciens, rr));
        }
        assert(arbre_pages(*d));
        assert(pages_spec(*d) == pages_spec(d1));
        assert(bien_forme(*d));
        assert forall|x: u64| #[trigger] contient_id(no, x) implies contient_id(
            d0.objets@,
            x,
        ) by {
            crate::modele::lemma_cherche_indice(no, x);
            let v = choose|v: int|
                0 <= v < no.len() && (#[trigger] no[v]).0 == x && cherche_spec(no, x) == Some(
                    no[v].1,
                );
            let w = choose|w: int| 0 <= w < anciens.len() && (#[trigger] anciens[w]) == no[v];
            crate::modele::lemma_indice_cherche(anciens, w);
            crate::modele::lemma_cherche_indice(anciens, x);
            let u = choose|u: int|
                0 <= u < anciens.len() && (#[trigger] anciens[u]).0 == x && cherche_spec(
                    anciens,
                    x,
                ) == Some(anciens[u].1);
            crate::modele::lemma_indice_cherche(d0.objets@, u);
        }
        // les valeurs survivantes sont celles d'avant, au flux vide annule
        // pres, et aucun flux vide ne survit
        assert forall|x: u64| #[trigger] contient_id(no, x) implies (cherche_spec(no, x)
            == cherche_spec(d0.objets@, x) || (cherche_spec(no, x) == Some(Objet::Nul) && (
        cherche_spec(d0.objets@, x) matches Some(f) && f matches Objet::Flux(_, dd) && dd@.len()
            == 0))) by {
            assert(cherche_spec(no, x) == cherche_spec(anciens, x));
            assert(contient_id(anciens, x));
        }
        assert forall|x: u64|
            ((#[trigger] cherche_spec(no, x)) is Some && cherche_spec(no, x)->Some_0
                is Flux) implies cherche_spec(no, x)->Some_0->Flux_1@.len() > 0 by {
            assert(contient_id(no, x));
            assert(cherche_spec(no, x) == cherche_spec(anciens, x));
            assert(contient_id(anciens, x));
            crate::modele::lemma_cherche_indice(anciens, x);
            let v = choose|v: int|
                0 <= v < anciens.len() && (#[trigger] anciens[v]).0 == x && cherche_spec(
                    anciens,
                    x,
                ) == Some(anciens[v].1);
            assert(anciens[v] == d0.objets@[v] || anciens[v].1 == Objet::Nul);
            assert((d0.objets@[v].1 matches Objet::Flux(_, dd) && dd@.len() == 0) ==> anciens[v].1
                == Objet::Nul);
            crate::modele::lemma_cherche_unique(d0.objets@, v);
        }
        // tout survivant est atteignable depuis le catalogue : il est dans
        // toute partie close contenant la racine
        assert forall|x: u64| #[trigger] contient_id(no, x) implies atteignable(
            d0.objets@,
            d0.racine,
            x,
        ) by {
            assert forall|v: Seq<u64>|
                (#[trigger] clos_par_refs(d0.objets@, v)) && v.contains(d0.racine) implies
                v.contains(x) by {
                // une partie close dans l'arene d'origine l'est dans
                // l'arene aux flux vides annules
                assert(clos_par_refs(anciens, v)) by {
                    assert forall|i: int, y: u64|
                        0 <= i < anciens.len() && v.contains((#[trigger] anciens[i]).0)
                            && #[trigger] ref_de(anciens[i].1, y) implies v.contains(y) by {
                        assert(anciens[i] == d0.objets@[i] || anciens[i].1 == Objet::Nul);
                        assert(ref_de(d0.objets@[i].1, y));
                        assert(d0.objets@[i].0 == anciens[i].0);
                    }
                }
                assert(elements_dans(graines@, v)) by {
                    assert(graines@[0] == d1.racine);
                }
                assert(elements_dans(garder@, v));
                assert(garder@.contains(x)) by {
                    crate::modele::lemma_cherche_indice(no, x);
                    let w = choose|w: int|
                        0 <= w < no.len() && (#[trigger] no[w]).0 == x && cherche_spec(no, x)
                            == Some(no[w].1);
                    assert(garder@.contains(no[w].0));
                }
                let u = choose|u: int| 0 <= u < garder@.len() && (#[trigger] garder@[u]) == x;
                assert(v.contains(garder@[u]));
            }
        }
    }
    Ok(())
}

/// Dans une arene reduite dont chaque entree vient d'une arene aux
/// identites uniques, les recherches qui aboutissent donnent la meme
/// valeur que dans l'arene d'origine.
pub proof fn lemma_sous_arene(anciens: Seq<(u64, Objet)>, nouveaux: Seq<(u64, Objet)>)
    requires
        crate::modele::ids_uniques(anciens),
        forall|j: int|
            #![trigger nouveaux[j]]
            0 <= j < nouveaux.len() ==> exists|w: int|
                0 <= w < anciens.len() && (#[trigger] anciens[w]) == nouveaux[j],
    ensures
        forall|x: u64|
            #[trigger] contient_id(nouveaux, x) ==> cherche_spec(nouveaux, x) == cherche_spec(
                anciens,
                x,
            ),
{
    assert forall|x: u64| #[trigger] contient_id(nouveaux, x) implies cherche_spec(nouveaux, x)
        == cherche_spec(anciens, x) by {
        crate::modele::lemma_cherche_indice(nouveaux, x);
        let j = choose|j: int|
            0 <= j < nouveaux.len() && (#[trigger] nouveaux[j]).0 == x && cherche_spec(
                nouveaux,
                x,
            ) == Some(nouveaux[j].1);
        let w = choose|w: int| 0 <= w < anciens.len() && (#[trigger] anciens[w]) == nouveaux[j];
        crate::modele::lemma_cherche_unique(anciens, w);
    }
}

/// Une valeur reference trouvee sous une cle est une reference du
/// dictionnaire porteur.
pub proof fn lemma_valeur_cle_ref(e: Seq<(String, Objet)>, k: Seq<char>, cible: u64)
    requires
        ({
            &&& valeur_cle(e, k) matches Some(vv)
            &&& vv matches Objet::Reference(rr)
            &&& rr == cible
        }),
    ensures
        exists|i: int| 0 <= i < e.len() && ref_de(#[trigger] e[i].1, cible),
    decreases e.len(),
{
    if e.len() > 0 {
        if e[0].0@ == k {
            assert(ref_de(e[0].1, cible));
        } else {
            lemma_valeur_cle_ref(e.drop_first(), k, cible);
            let i = choose|i: int|
                0 <= i < e.drop_first().len() && ref_de(#[trigger] e.drop_first()[i].1, cible);
            assert(e.drop_first()[i] == e[i + 1]);
            assert(ref_de(e[i + 1].1, cible));
        }
    }
}

/// Une reference logee dans un tableau sous une cle est une reference du
/// dictionnaire porteur.
pub proof fn lemma_valeur_cle_ref2(e: Seq<(String, Objet)>, k: Seq<char>, cible: u64)
    requires
        valeur_cle(e, k) matches Some(vv) && ref_de(vv, cible),
    ensures
        exists|i: int| 0 <= i < e.len() && ref_de(#[trigger] e[i].1, cible),
    decreases e.len(),
{
    if e.len() > 0 {
        if e[0].0@ == k {
            assert(ref_de(e[0].1, cible));
        } else {
            lemma_valeur_cle_ref2(e.drop_first(), k, cible);
            let i = choose|i: int|
                0 <= i < e.drop_first().len() && ref_de(#[trigger] e.drop_first()[i].1, cible);
            assert(e.drop_first()[i] == e[i + 1]);
            assert(ref_de(e[i + 1].1, cible));
        }
    }
}

/// Les dictionnaires se lisent pareil dans les deux arenes.
pub open spec fn lectures_arbre_intactes(
    avant: Seq<(u64, Objet)>,
    apres: Seq<(u64, Objet)>,
) -> bool {
    forall|x: u64|
        ((#[trigger] cherche_spec(apres, x)) is Some && cherche_spec(avant, x) is Some
            && cherche_spec(avant, x)->Some_0 is Dictionnaire) ==> cherche_spec(apres, x)
            == cherche_spec(avant, x)
}

/// Si toute lecture de dictionnaire est intacte et le domaine stable,
/// l'arbre des pages l'est aussi.
pub proof fn lemma_arbre_intact(avant: Document, apres: Document)
    requires
        apres.racine == avant.racine,
        arbre_pages(avant),
        forall|x: u64| #[trigger] contient_id(apres.objets@, x) == contient_id(avant.objets@, x),
        lectures_arbre_intactes(avant.objets@, apres.objets@),
    ensures
        arbre_pages(apres),
        pages_spec(apres) == pages_spec(avant),
{
    assert(contient_id(avant.objets@, avant.racine));
    assert(contient_id(apres.objets@, avant.racine));
    assert(cherche_spec(apres.objets@, avant.racine) is Some);
    assert(cherche_spec(apres.objets@, apres.racine) == cherche_spec(avant.objets@, avant.racine));
    let p = id_pages(avant)->Some_0;
    assert(contient_id(avant.objets@, p));
    assert(contient_id(apres.objets@, p));
    assert(cherche_spec(apres.objets@, p) is Some);
    assert(cherche_spec(apres.objets@, p) == cherche_spec(avant.objets@, p));
    let pe = cherche_spec(avant.objets@, p)->Some_0->Dictionnaire_0;
    let kids = valeur_cle(pe@, "Kids"@)->Some_0->Tableau_0;
    assert forall|k: int| 0 <= k < kids@.len() implies ((#[trigger] kids@[k])
        matches Objet::Reference(rr) && est_dict_de_type(apres.objets@, rr, "Page"@)) by {
        let rr = kids@[k]->Reference_0;
        assert(est_dict_de_type(avant.objets@, rr, "Page"@));
        assert(contient_id(avant.objets@, rr));
        assert(contient_id(apres.objets@, rr));
        assert(cherche_spec(apres.objets@, rr) is Some);
        assert(cherche_spec(apres.objets@, rr) == cherche_spec(avant.objets@, rr));
    }
}

} // verus!

verus! {

/// Meme nettoyage structurel que la compression, tente au mieux : un
/// fichier qui ne se laisse pas charger est une erreur de chargement en
/// amont, pas un cas silencieux.
pub fn pdf_reparer(d: &mut Document) -> (r: Result<(), Erreur>)
    requires
        bien_forme(*old(d)),
    ensures
        r is Ok,
        bien_forme(*final(d)),
        final(d).racine == old(d).racine,
        final(d).chiffrement == old(d).chiffrement,
        pages_spec(*final(d)) == pages_spec(*old(d)),
        final(d).objets@.len() <= old(d).objets@.len(),
        forall|x: u64|
            #[trigger] contient_id(final(d).objets@, x) ==> (cherche_spec(final(d).objets@, x)
                == cherche_spec(old(d).objets@, x) || (cherche_spec(final(d).objets@, x) == Some(
                Objet::Nul,
            ) && (cherche_spec(old(d).objets@, x) matches Some(f) && f matches Objet::Flux(_, dd)
                && dd@.len() == 0))),
        forall|x: u64|
            ((#[trigger] cherche_spec(final(d).objets@, x)) is Some && cherche_spec(
                final(d).objets@,
                x,
            )->Some_0 is Flux) ==> cherche_spec(final(d).objets@, x)->Some_0->Flux_1@.len() > 0,
        forall|x: u64|
            #[trigger] contient_id(final(d).objets@, x) ==> atteignable(
                old(d).objets@,
                old(d).racine,
                x,
            ),
{
    pdf_compresser(d)
}

/// Les entrees du sous-dictionnaire loge sous `cle`, resolues a travers
/// au plus un niveau de reference ; vides si la cle manque ou porte autre
/// chose.
pub open spec fn dict_resolu(
    objets: Seq<(u64, Objet)>,
    e: Seq<(String, Objet)>,
    cle: Seq<char>,
) -> Seq<(String, Objet)> {
    match valeur_cle(e, cle) {
        Some(Objet::Dictionnaire(sous)) => sous@,
        Some(Objet::Reference(rid)) => match cherche_spec(objets, rid) {
            Some(Objet::Dictionnaire(sous)) => sous@,
            _ => Seq::empty(),
        },
        _ => Seq::empty(),
    }
}

/// Le Contents d'une page apres ajout d'un flux : un tableau existant est
/// prolonge d'une reference au flux neuf, une reference seule devient un
/// tableau de deux, tout autre cas devient la reference seule. Le contenu
/// existant n'est jamais detruit et le flux neuf dessine apres lui.
pub open spec fn contenu_rattache(ancien: Option<Objet>, nouveau: Option<Objet>, sid: u64) -> bool {
    match ancien {
        Some(Objet::Tableau(t)) => {
            &&& nouveau matches Some(nv)
            &&& nv matches Objet::Tableau(t2)
            &&& t2@.len() == t@.len() + 1
            &&& (t2@.last() matches Objet::Reference(r) && r == sid)
            &&& forall|i: int| 0 <= i < t@.len() ==> egal_vue(#[trigger] t2@[i], t@[i])
        },
        Some(Objet::Reference(a)) => {
            &&& nouveau matches Some(nv)
            &&& nv matches Objet::Tableau(t2)
            &&& t2@.len() == 2
            &&& (t2@[0] matches Objet::Reference(r0) && r0 == a)
            &&& (t2@[1] matches Objet::Reference(r1) && r1 == sid)
        },
        _ => {
            &&& nouveau matches Some(nv)
            &&& nv matches Objet::Reference(r)
            &&& r == sid
        },
    }
}

/// Resoudre depuis des entrees equivalentes donne des sous-dictionnaires
/// equivalents.
pub proof fn lemma_resolution_egale(
    objets: Seq<(u64, Objet)>,
    a: Seq<(String, Objet)>,
    b: Seq<(String, Objet)>,
    cle: Seq<char>,
)
    requires
        crate::modele::option_egal_vue(valeur_cle(a, cle), valeur_cle(b, cle)),
    ensures
        crate::modele::egal_vue_entrees(dict_resolu(objets, a, cle), dict_resolu(objets, b, cle)),
{
    match valeur_cle(a, cle) {
        Some(Objet::Reference(rid)) => {
            match cherche_spec(objets, rid) {
                Some(Objet::Dictionnaire(sous)) => {
                    crate::modele::lemma_egal_vue_entrees_refl(sous@);
                },
                _ => {},
            }
        },
        _ => {},
    }
}

/// La valeur d'une cle de la page, resolue a travers au plus un niveau de
/// reference, copiee ; un dictionnaire vide sinon. Toute reference du
/// resultat se trouve deja dans le document.
#[verifier::rlimit(100)]
fn resous_dictionnaire(d: &Document, e: &Vec<(String, Objet)>, cle: &str) -> (r: Vec<
    (String, Objet),
>)
    requires
        ferme(d.objets@),
        forall|i: int, x: u64|
            0 <= i < e@.len() && #[trigger] ref_de(e@[i].1, x) ==> contient_id(d.objets@, x),
    ensures
        forall|i: int, x: u64|
            0 <= i < r@.len() && #[trigger] ref_de(r@[i].1, x) ==> contient_id(d.objets@, x),
        crate::modele::egal_vue_entrees(r@, dict_resolu(d.objets@, e@, cle@)),
{
    let ghost ge = e@;
    match dict_obtenir(e, cle) {
        Some(Objet::Dictionnaire(sous)) => {
            let ghost gsous = sous@;
            let c = crate::modele::copie_entrees(sous);
            proof {
                assert forall|i: int, x: u64|
                    0 <= i < c@.len() && #[trigger] ref_de(c@[i].1, x) implies contient_id(
                    d.objets@,
                    x,
                ) by {
                    crate::modele::lemma_egal_vue_refs(c@[i].1, gsous[i].1);
                    assert(ref_de(gsous[i].1, x));
                    assert(ref_de(valeur_cle(ge, cle@)->Some_0, x));
                    lemma_valeur_cle_ref2(ge, cle@, x);
                    let w = choose|w: int| 0 <= w < ge.len() && ref_de(#[trigger] ge[w].1, x);
                    assert(ref_de(e@[w].1, x));
                }
            }
            c
        },
        Some(Objet::Reference(rid)) => {
            let rid = *rid;
            proof {
                lemma_valeur_cle_ref2_simple(ge, cle@, rid);
            }
            match d.cherche(rid) {
                Some(Objet::Dictionnaire(sous)) => {
                    let ghost gsous = sous@;
                    let c = crate::modele::copie_entrees(sous);
                    proof {
                        crate::modele::lemma_cherche_indice(d.objets@, rid);
                        let v = choose|v: int|
                            0 <= v < d.objets@.len() && (#[trigger] d.objets@[v]).0 == rid
                                && cherche_spec(d.objets@, rid) == Some(d.objets@[v].1);
                        assert forall|i: int, x: u64|
                            0 <= i < c@.len() && #[trigger] ref_de(c@[i].1, x) implies contient_id(
                            d.objets@,
                            x,
                        ) by {
                            crate::modele::lemma_egal_vue_refs(c@[i].1, gsous[i].1);
                            assert(ref_de(gsous[i].1, x));
                            assert(ref_de(d.objets@[v].1, x));
                        }
                    }
                    c
                },
                _ => Vec::new(),
            }
        },
        _ => Vec::new(),
    }
}

/// Quand la valeur sous une cle est une reference, elle compte parmi les
/// references du dictionnaire.
proof fn lemma_valeur_cle_ref2_simple(e: Seq<(String, Objet)>, k: Seq<char>, rid: u64)
    requires
        ({
            &&& valeur_cle(e, k) matches Some(vv)
            &&& vv matches Objet::Reference(rr)
            &&& rr == rid
        }),
    ensures
        exists|i: int| 0 <= i < e.len() && ref_de(#[trigger] e[i].1, rid),
    decreases e.len(),
{
    if e.len() > 0 {
        if e[0].0@ == k {
            assert(ref_de(e[0].1, rid));
        } else {
            lemma_valeur_cle_ref2_simple(e.drop_first(), k, rid);
            let i = choose|i: int|
                0 <= i < e.drop_first().len() && ref_de(#[trigger] e.drop_first()[i].1, rid);
            assert(e.drop_first()[i] == e[i + 1]);
            assert(ref_de(e[i + 1].1, rid));
        }
    }
}

} // verus!

verus! {

/// La page a recu son recouvrement. Le flux neuf est rattache au Contents
/// existant sans rien detruire ; la page porte une copie locale de ses
/// Resources, un niveau de reference resolu, dont le sous-dictionnaire
/// Font (et au besoin ExtGState) est la fusion de l'existant et de
/// l'entree nommee neuve ; toute autre entree de la page est inchangee.
/// Les pages soeurs qui partageaient ces Resources gardent les leurs : le
/// partage est rompu pour cette page seule.
pub open spec fn recouvrement_pose(
    avant: Seq<(u64, Objet)>,
    apres: Seq<(u64, Objet)>,
    pid: u64,
    sid: u64,
    nom_police: Seq<char>,
    police_id: u64,
    nom_etat: Option<Seq<char>>,
    etat_id: u64,
) -> bool {
    &&& cherche_spec(apres, pid) matches Some(np)
    &&& np matches Objet::Dictionnaire(ne)
    &&& cherche_spec(avant, pid) matches Some(ap)
    &&& ap matches Objet::Dictionnaire(ae)
    &&& (forall|k: Seq<char>|
        k != "Resources"@ && k != "Contents"@ ==> #[trigger] valeur_cle(ne@, k) == valeur_cle(
            ae@,
            k,
        ))
    &&& contenu_rattache(valeur_cle(ae@, "Contents"@), valeur_cle(ne@, "Contents"@), sid)
    &&& valeur_cle(ne@, "Resources"@) matches Some(rv)
    &&& rv matches Objet::Dictionnaire(res)
    &&& (forall|k: Seq<char>|
        k != "Font"@ && k != "ExtGState"@ ==> crate::modele::option_egal_vue(
            #[trigger] valeur_cle(res@, k),
            valeur_cle(dict_resolu(avant, ae@, "Resources"@), k),
        ))
    &&& valeur_cle(res@, "Font"@) matches Some(fv)
    &&& fv matches Objet::Dictionnaire(fonts)
    &&& (valeur_cle(fonts@, nom_police) matches Some(pf) && pf matches Objet::Reference(pr) && pr
        == police_id)
    &&& (forall|k: Seq<char>|
        k != nom_police ==> crate::modele::option_egal_vue(
            #[trigger] valeur_cle(fonts@, k),
            valeur_cle(
                dict_resolu(avant, dict_resolu(avant, ae@, "Resources"@), "Font"@),
                k,
            ),
        ))
    &&& (match nom_etat {
        Some(nom) => {
            &&& valeur_cle(res@, "ExtGState"@) matches Some(gv)
            &&& gv matches Objet::Dictionnaire(etats)
            &&& (valeur_cle(etats@, nom) matches Some(gf) && gf matches Objet::Reference(gr) && gr
                == etat_id)
            &&& (forall|k: Seq<char>|
                k != nom ==> crate::modele::option_egal_vue(
                    #[trigger] valeur_cle(etats@, k),
                    valeur_cle(
                        dict_resolu(avant, dict_resolu(avant, ae@, "Resources"@), "ExtGState"@),
                        k,
                    ),
                ))
        },
        None => crate::modele::option_egal_vue(
            valeur_cle(res@, "ExtGState"@),
            valeur_cle(dict_resolu(avant, ae@, "Resources"@), "ExtGState"@),
        ),
    })
}

/// Le volet etat graphique est pose dans des Resources donnees : le
/// sous-dictionnaire ExtGState porte l'entree nommee neuve et, pour le
/// reste, la resolution de l'existant ; les autres cles des Resources sont
/// telles quelles.
pub open spec fn volet_etat_pose(
    objets: Seq<(u64, Objet)>,
    avant: Seq<(String, Objet)>,
    apres: Seq<(String, Objet)>,
    nom: Seq<char>,
    gid: u64,
) -> bool {
    &&& valeur_cle(apres, "ExtGState"@) matches Some(gv)
    &&& gv matches Objet::Dictionnaire(e2)
    &&& (valeur_cle(e2@, nom) matches Some(gf) && gf matches Objet::Reference(gr) && gr == gid)
    &&& (forall|k: Seq<char>|
        k != nom ==> crate::modele::option_egal_vue(
            #[trigger] valeur_cle(e2@, k),
            valeur_cle(dict_resolu(objets, avant, "ExtGState"@), k),
        ))
    &&& (forall|k: Seq<char>|
        k != "ExtGState"@ ==> #[trigger] valeur_cle(apres, k) == valeur_cle(avant, k))
}

/// La vue du nom d'etat graphique demande.
pub open spec fn nom_etat_vue(etat: Option<(&str, u64)>) -> Option<Seq<char>> {
    match etat {
        Some(g) => Some(g.0@),
        None => None,
    }
}

pub open spec fn id_etat_vue(etat: Option<(&str, u64)>) -> u64 {
    match etat {
        Some(g) => g.1,
        None => 0,
    }
}

/// Ajoute a une page un flux de contenu et une police nommee (et au
/// besoin un etat graphique nomme), sans rien detruire : les Resources et
/// le Contents existants sont lus, resolus a travers au plus un niveau de
/// reference, recopies puis completes, et la copie est posee sur la page.
/// Des Resources partagees entre pages soeurs cessent donc de l'etre pour
/// la page retouchee : la copie locale evite de corrompre les autres
/// pages, au prix d'une duplication.
#[verifier::loop_isolation(false)]
#[verifier::rlimit(100)]
#[verifier::spinoff_prover]
fn ajouter_overlay_page(
    d: &mut Document,
    pid: u64,
    contenu: Vec<u8>,
    nom_police: &str,
    police_id: u64,
    etat_graphique: Option<(&str, u64)>,
) -> (r: Result<u64, Erreur>)
    requires
        bien_forme(*old(d)),
        est_dict_de_type(old(d).objets@, pid, "Page"@),
        contient_id(old(d).objets@, police_id),
        match etat_graphique {
            Some(g) => contient_id(old(d).objets@, g.1),
            None => true,
        },
    ensures
        final(d).racine == old(d).racine,
        final(d).chiffrement == old(d).chiffrement,
        match r {
            Ok(sid) => {
                &&& bien_forme(*final(d))
                &&& pages_spec(*final(d)) == pages_spec(*old(d))
                &&& maximum_id(final(d).objets@) == maximum_id(old(d).objets@) + 1
                &&& !contient_id(old(d).objets@, sid)
                &&& (cherche_spec(final(d).objets@, sid) matches Some(f) && f matches Objet::Flux(
                    fe,
                    fb,
                ) && fe@.len() == 0 && fb@ == contenu@)
                &&& forall|x: u64|
                    x != pid && x != sid ==> #[trigger] cherche_spec(final(d).objets@, x)
                        == cherche_spec(old(d).objets@, x)
                &&& recouvrement_pose(
                    old(d).objets@,
                    final(d).objets@,
                    pid,
                    sid,
                    nom_police@,
                    police_id,
                    nom_etat_vue(etat_graphique),
                    id_etat_vue(etat_graphique),
                )
            },
            Err(e) => e == Erreur::Structurelle && maximum_id(old(d).objets@) + 1 >= BORNE_ID,
        },
{
    let ghost d0 = *d;
    let sid = match d.ajoute(Objet::Flux(Vec::new(), contenu)) {
        Ok(sid) => sid,
        Err(e) => {
            return Err(e);
        },
    };
    let ghost d1 = *d;
    proof {
        lemma_cles_distinctes();
        reveal_strlit("Type");
        reveal_strlit("Parent");
        reveal_strlit("Resources");
        reveal_strlit("Contents");
        reveal_strlit("Font");
        reveal_strlit("ExtGState");
        assert("Resources"@.len() == 9 && "Contents"@.len() == 8 && "Font"@.len() == 4
            && "ExtGState"@.len() == 9);
        assert("Resources"@[0] == 'R' && "Contents"@[0] == 'C' && "Type"@[0] == 'T'
            && "ExtGState"@[0] == 'E' && "Font"@[0] == 'F' && "Parent"@[0] == 'P');
        assert(cherche_spec(d.objets@, pid) == cherche_spec(d0.objets@, pid));
    }
    // Phase de lecture : la page, ses Resources et son Contents.
    let entrees_page = match d.cherche(pid) {
        Some(Objet::Dictionnaire(e)) => e,
        _ => {
            proof {
                assert(false);
            }
            return Err(Erreur::Structurelle);
        },
    };
    let ghost ge = entrees_page@;
    proof {
        crate::modele::lemma_cherche_indice(d1.objets@, pid);
        let v = choose|v: int|
            0 <= v < d1.objets@.len() && (#[trigger] d1.objets@[v]).0 == pid && cherche_spec(
                d1.objets@,
                pid,
            ) == Some(d1.objets@[v].1);
        assert forall|i: int, x: u64|
            0 <= i < ge.len() && #[trigger] ref_de(ge[i].1, x) implies contient_id(
            d1.objets@,
            x,
        ) by {
            assert(ref_de(d1.objets@[v].1, x));
        }
    }
    let mut ressources = resous_dictionnaire(d, entrees_page, "Resources");
    let polices = {
        let r2 = &ressources;
        proof {
            assert(ferme(d.objets@));
        }
        resous_dictionnaire(d, r2, "Font")
    };
    let mut polices = polices;
    let ghost gpol0 = polices@;
    dict_definir(&mut polices, nom_police, Objet::Reference(police_id));
    let ghost gpol1 = polices@;
    let ghost gres0 = ressources@;
    dict_definir(&mut ressources, "Font", Objet::Dictionnaire(polices));
    proof {
        assert forall|i: int, x: u64|
            0 <= i < ressources@.len() && #[trigger] ref_de(ressources@[i].1, x) implies
            contient_id(d.objets@, x) by {
            let vfont = Objet::Dictionnaire(polices);
            if ref_de(vfont, x) {
                let j = choose|j: int| 0 <= j < gpol1.len() && ref_de(#[trigger] gpol1[j].1, x);
                if ref_de(Objet::Reference(police_id), x) || x == police_id {
                } else {
                    let w = choose|w: int| 0 <= w < gpol0.len() && ref_de(#[trigger] gpol0[w].1, x);
                }
            } else {
                let j = choose|j: int|
                    0 <= j < gres0.len() && ref_de(#[trigger] gres0[j].1, x);
            }
        }
    }
    let ghost gres_ag = ressources@;
    let mut gs_pose = false;
    match etat_graphique {
        Some((nom_gs, gs_id)) => {
            let etats = {
                let r2 = &ressources;
                resous_dictionnaire(d, r2, "ExtGState")
            };
            let mut etats = etats;
            let ghost geta0 = etats@;
            dict_definir(&mut etats, nom_gs, Objet::Reference(gs_id));
            let ghost geta1 = etats@;
            let ghost gres1 = ressources@;
            dict_definir(&mut ressources, "ExtGState", Objet::Dictionnaire(etats));
            gs_pose = true;
            proof {
                // les faits du volet etat graphique, rapportes a l'etat
                // d'avant ce volet
                assert(valeur_cle(ressources@, "ExtGState"@) matches Some(gv) && gv
                    matches Objet::Dictionnaire(e2) && e2@ == geta1);
                assert(valeur_cle(geta1, nom_gs@) matches Some(gf) && gf == Objet::Reference(
                    gs_id,
                ));
                assert(crate::modele::egal_vue_entrees(
                    geta0,
                    dict_resolu(d1.objets@, gres_ag, "ExtGState"@),
                ));
                crate::modele::lemma_egal_vue_valeur_cle(
                    geta0,
                    dict_resolu(d1.objets@, gres_ag, "ExtGState"@),
                );
                assert forall|k: Seq<char>| k != nom_gs@ implies crate::modele::option_egal_vue(
                    #[trigger] valeur_cle(geta1, k),
                    valeur_cle(dict_resolu(d1.objets@, gres_ag, "ExtGState"@), k),
                ) by {
                    assert(valeur_cle(geta1, k) == valeur_cle(geta0, k));
                }
                assert(volet_etat_pose(d1.objets@, gres_ag, ressources@, nom_gs@, gs_id));
                assert forall|i: int, x: u64|
                    0 <= i < ressources@.len() && #[trigger] ref_de(ressources@[i].1, x) implies
                    contient_id(d.objets@, x) by {
                    let vgs = Objet::Dictionnaire(etats);
                    if ref_de(vgs, x) {
                        let j = choose|j: int|
                            0 <= j < geta1.len() && ref_de(#[trigger] geta1[j].1, x);
                        if x != gs_id {
                            let w = choose|w: int|
                                0 <= w < geta0.len() && ref_de(#[trigger] geta0[w].1, x);
                        }
                    } else {
                        let j = choose|j: int|
                            0 <= j < gres1.len() && ref_de(#[trigger] gres1[j].1, x);
                    }
                }
            }
        },
        None => {},
    }
    let ghost gres_finale = ressources@;
    // Le Contents existant, complete du nouveau flux.
    let contents_nv: Objet = match dict_obtenir(entrees_page, "Contents") {
        Some(Objet::Tableau(arr)) => {
            let ghost garr = arr@;
            let mut copie: Vec<Objet> = Vec::new();
            let mut i: usize = 0;
            while i < arr.len()
                invariant
                    0 <= i <= garr.len(),
                    arr@ == garr,
                    copie@.len() == i,
                    forall|j: int, x: u64|
                        0 <= j < i && #[trigger] ref_de(copie@[j], x) ==> ref_de(garr[j], x),
                    forall|j: int| 0 <= j < i ==> egal_vue(#[trigger] copie@[j], garr[j]),
                decreases garr.len() - i,
            {
                let c = crate::modele::copie_objet(&arr[i]);
                proof {
                    crate::modele::lemma_egal_vue_refs(c, garr[i as int]);
                }
                copie.push(c);
                i = i + 1;
            }
            copie.push(Objet::Reference(sid));
            let nouveau = Objet::Tableau(copie);
            proof {
                assert(contenu_rattache(valeur_cle(ge, "Contents"@), Some(nouveau), sid)) by {
                    let t2 = nouveau->Tableau_0;
                    assert(t2@.len() == garr.len() + 1);
                    assert(t2@.last() == Objet::Reference(sid));
                }
            }
            nouveau
        },
        Some(Objet::Reference(ancien)) => {
            let ancien = *ancien;
            let mut arr: Vec<Objet> = Vec::new();
            arr.push(Objet::Reference(ancien));
            arr.push(Objet::Reference(sid));
            proof {
                lemma_valeur_cle_ref2_simple(ge, "Contents"@, ancien);
            }
            let nouveau = Objet::Tableau(arr);
            proof {
                assert(contenu_rattache(valeur_cle(ge, "Contents"@), Some(nouveau), sid)) by {
                    assert(nouveau->Tableau_0@[0] == Objet::Reference(ancien));
                    assert(nouveau->Tableau_0@[1] == Objet::Reference(sid));
                }
            }
            nouveau
        },
        _ => {
            proof {
                assert(contenu_rattache(
                    valeur_cle(ge, "Contents"@),
                    Some(Objet::Reference(sid)),
                    sid,
                ));
            }
            Objet::Reference(sid)
        },
    };
    let ghost gcontents = contents_nv;
    proof {
        assert forall|x: u64| #[trigger] ref_de(gcontents, x) implies contient_id(
            d.objets@,
            x,
        ) by {
            if gcontents is Tableau {
                let ta = gcontents->Tableau_0;
                let j = choose|j: int| 0 <= j < ta@.len() && ref_de(#[trigger] ta@[j], x);
                if x != sid {
                    if j < ta@.len() - 1 && valeur_cle(ge, "Contents"@) is Some && valeur_cle(
                        ge,
                        "Contents"@,
                    )->Some_0 is Tableau {
                        // une reference de l'ancien Contents de la page
                        let vieux = valeur_cle(ge, "Contents"@)->Some_0;
                        assert(ref_de(vieux->Tableau_0@[j], x));
                        assert(ref_de(vieux, x));
                        lemma_valeur_cle_ref2(ge, "Contents"@, x);
                        let w = choose|w: int| 0 <= w < ge.len() && ref_de(#[trigger] ge[w].1, x);
                        crate::modele::lemma_cherche_indice(d.objets@, pid);
                        let v = choose|v: int|
                            0 <= v < d.objets@.len() && (#[trigger] d.objets@[v]).0 == pid
                                && cherche_spec(d.objets@, pid) == Some(d.objets@[v].1);
                        assert(ref_de(d.objets@[v].1, x));
                    } else if valeur_cle(ge, "Contents"@) is Some && valeur_cle(
                        ge,
                        "Contents"@,
                    )->Some_0 is Reference {
                        lemma_valeur_cle_ref2(ge, "Contents"@, x);
                        let w = choose|w: int| 0 <= w < ge.len() && ref_de(#[trigger] ge[w].1, x);
                        crate::modele::lemma_cherche_indice(d.objets@, pid);
                        let v = choose|v: int|
                            0 <= v < d.objets@.len() && (#[trigger] d.objets@[v]).0 == pid
                                && cherche_spec(d.objets@, pid) == Some(d.objets@[v].1);
                        assert(ref_de(d.objets@[v].1, x));
                    }
                }
            }
        }
    }
    // Phase d'ecriture : la page recoit ses copies completees.
    let mut page_nv = match prend(d, pid) {
        Some(Objet::Dictionnaire(e)) => e,
        _ => {
            proof {
                assert(false);
            }
            return Err(Erreur::Structurelle);
        },
    };
    let ghost anciennes = page_nv@;
    dict_definir(&mut page_nv, "Resources", Objet::Dictionnaire(ressources));
    let ghost ginter = page_nv@;
    dict_definir(&mut page_nv, "Contents", contents_nv);
    let ghost nouvelles = page_nv@;
    let present = d.remplace(pid, Objet::Dictionnaire(page_nv));
    proof {
        assert(present);
        assert(cherche_spec(d1.objets@, pid)->Some_0->Dictionnaire_0@ == ge);
        assert(anciennes == ge);
        // Cloture : chaque reference de la page retouchee est deja la.
        assert forall|i: int, x: u64|
            0 <= i < d.objets@.len() && #[trigger] ref_de(d.objets@[i].1, x) implies contient_id(
            d.objets@,
            x,
        ) by {
            assert(contient_id(d.objets@, x) == contient_id(d1.objets@, x)) by {
                if x == pid {
                    assert(cherche_spec(d.objets@, x) is Some);
                    assert(cherche_spec(d1.objets@, x) is Some);
                } else {
                    assert(cherche_spec(d.objets@, x) == cherche_spec(d1.objets@, x));
                }
            }
            if d.objets@[i] == d1.objets@[i] {
                assert(ref_de(d1.objets@[i].1, x));
            } else {
                assert(d.objets@[i].1->Dictionnaire_0@ == nouvelles);
                let ne = d.objets@[i].1->Dictionnaire_0;
                let j = choose|j: int| 0 <= j < ne@.len() && ref_de(#[trigger] ne@[j].1, x);
                // l'entree vient des anciennes, du Contents complete ou
                // des Resources recopiees.
                assert((j < ginter.len() && nouvelles[j] == ginter[j]) || nouvelles[j].1
                    == gcontents);
                if j < ginter.len() && nouvelles[j] == ginter[j] {
                    assert((j < anciennes.len() && ginter[j] == anciennes[j]) || ginter[j].0@ == "Resources"@);
                    if j < anciennes.len() && ginter[j] == anciennes[j] {
                        crate::modele::lemma_cherche_indice(d1.objets@, pid);
                        let v = choose|v: int|
                            0 <= v < d1.objets@.len() && (#[trigger] d1.objets@[v]).0 == pid
                                && cherche_spec(d1.objets@, pid) == Some(d1.objets@[v].1);
                        assert(ref_de(ge[j].1, x));
                        assert(ref_de(d1.objets@[v].1, x));
                    } else {
                        assert(ginter[j].1->Dictionnaire_0@ == gres_finale);
                        let w = choose|w: int|
                            0 <= w < gres_finale.len() && ref_de(#[trigger] gres_finale[w].1, x);
                    }
                } else {
                    assert(ref_de(gcontents, x));
                }
            }
        }
        assert(ferme(d.objets@));
        lemma_page_ni_racine_ni_noeud(d1, pid);
        assert(est_dict_de_type(d.objets@, d.racine, "Catalog"@));
        assert(id_pages(*d) == id_pages(d1));
        let p = id_pages(d1)->Some_0;
        assert(est_dict_de_type(d.objets@, p, "Pages"@));
        assert(kids_de(*d) == kids_de(d1));
        assert forall|k: int| 0 <= k < kids_de(d1).len() implies ((#[trigger] kids_de(d1)[k])
            matches Objet::Reference(rr) && est_dict_de_type(d.objets@, rr, "Page"@)) by {
            let rr = kids_de(d1)[k]->Reference_0;
            if rr != pid {
                assert(est_dict_de_type(d1.objets@, rr, "Page"@));
            } else {
                assert(valeur_cle(nouvelles, "Type"@) == valeur_cle(anciennes, "Type"@));
            }
        }
        assert(pages_spec(*d) =~= pages_spec(d1));
        assert(pages_spec(d1) =~= pages_spec(d0)) by {
            lemma_arbre_intact_push(d0, d1);
        }
        assert(bien_forme(*d));
        assert(cherche_spec(d.objets@, sid) == cherche_spec(d1.objets@, sid)) by {
            assert(sid != pid);
        }
        assert(maximum_id(d.objets@) == maximum_id(d0.objets@) + 1) by {
            crate::modele::lemma_maximum_ids(d.objets@, d1.objets@);
        }
        // Le recouvrement est pose : rattachement du flux, Resources
        // locales et fusionnees, un niveau de reference resolu.
        assert(recouvrement_pose(
            d0.objets@,
            d.objets@,
            pid,
            sid,
            nom_police@,
            police_id,
            nom_etat_vue(etat_graphique),
            id_etat_vue(etat_graphique),
        )) by {
            let ap = cherche_spec(d0.objets@, pid)->Some_0;
            let ae = ap->Dictionnaire_0;
            assert(ae@ == ge);
            let np = cherche_spec(d.objets@, pid)->Some_0;
            let ne = np->Dictionnaire_0;
            assert(ne@ == nouvelles);
            // autres cles de la page
            assert(valeur_cle(nouvelles, "Contents"@) == Some(gcontents));
            assert(valeur_cle(nouvelles, "Resources"@) matches Some(rv) && rv
                matches Objet::Dictionnaire(res) && res@ == gres_finale);
            // sources resolues, dans l'arene d'origine comme dans celle qui
            // porte deja le flux neuf
            let source = dict_resolu(d0.objets@, ge, "Resources"@);
            assert(dict_resolu(d1.objets@, ge, "Resources"@) =~= source) by {
                lemma_source_stable(d0.objets@, d1.objets@, ge, "Resources"@, pid, sid);
            }
            assert(crate::modele::egal_vue_entrees(gres0, source));
            crate::modele::lemma_egal_vue_valeur_cle(gres0, source);
            // le sous-dictionnaire des polices fusionne
            let police_source = dict_resolu(d0.objets@, source, "Font"@);
            assert(crate::modele::egal_vue_entrees(gpol0, police_source)) by {
                lemma_resolution_egale(d1.objets@, gres0, source, "Font"@);
                assert(dict_resolu(d1.objets@, source, "Font"@) =~= police_source) by {
                    lemma_source_profonde(d0.objets@, d1.objets@, ge, source, "Font"@, pid, sid);
                }
                crate::modele::lemma_egal_vue_entrees_trans(
                    gpol0,
                    dict_resolu(d1.objets@, gres0, "Font"@),
                    police_source,
                );
            }
            crate::modele::lemma_egal_vue_valeur_cle(gpol0, police_source);
            assert(valeur_cle(gres_finale, "Font"@) matches Some(fv) && fv
                matches Objet::Dictionnaire(fonts) && fonts@ == gpol1);
            assert(valeur_cle(gpol1, nom_police@) matches Some(pf) && pf == Objet::Reference(
                police_id,
            ));
            // le volet etat graphique
            reveal_strlit("Font");
            reveal_strlit("ExtGState");
            assert("ExtGState"@ != "Font"@) by {
                assert("ExtGState"@.len() == 9 && "Font"@.len() == 4);
            }
            match etat_graphique {
                Some((nom_gs, gs_id)) => {
                    assert(volet_etat_pose(d1.objets@, gres_ag, gres_finale, nom_gs@, gs_id));
                    let etat_source = dict_resolu(d0.objets@, source, "ExtGState"@);
                    assert(crate::modele::egal_vue_entrees(
                        dict_resolu(d1.objets@, gres_ag, "ExtGState"@),
                        etat_source,
                    )) by {
                        assert(valeur_cle(gres_ag, "ExtGState"@) == valeur_cle(
                            gres0,
                            "ExtGState"@,
                        ));
                        assert(crate::modele::option_egal_vue(
                            valeur_cle(gres_ag, "ExtGState"@),
                            valeur_cle(source, "ExtGState"@),
                        ));
                        lemma_resolution_egale(d1.objets@, gres_ag, source, "ExtGState"@);
                        assert(dict_resolu(d1.objets@, source, "ExtGState"@) =~= etat_source) by {
                            lemma_source_profonde(
                                d0.objets@,
                                d1.objets@,
                                ge,
                                source,
                                "ExtGState"@,
                                pid,
                                sid,
                            );
                        }
                        crate::modele::lemma_egal_vue_entrees_refl(etat_source);
                        crate::modele::lemma_egal_vue_entrees_trans(
                            dict_resolu(d1.objets@, gres_ag, "ExtGState"@),
                            dict_resolu(d1.objets@, source, "ExtGState"@),
                            etat_source,
                        );
                    }
                    let e2 = valeur_cle(gres_finale, "ExtGState"@)->Some_0->Dictionnaire_0;
                    crate::modele::lemma_egal_vue_valeur_cle(
                        dict_resolu(d1.objets@, gres_ag, "ExtGState"@),
                        etat_source,
                    );
                    assert forall|k: Seq<char>| k != nom_gs@ implies crate::modele::option_egal_vue(
                        #[trigger] valeur_cle(e2@, k),
                        valeur_cle(etat_source, k),
                    ) by {
                        assert(crate::modele::option_egal_vue(
                            valeur_cle(e2@, k),
                            valeur_cle(dict_resolu(d1.objets@, gres_ag, "ExtGState"@), k),
                        ));
                        crate::modele::lemma_option_egal_trans(
                            valeur_cle(e2@, k),
                            valeur_cle(dict_resolu(d1.objets@, gres_ag, "ExtGState"@), k),
                            valeur_cle(etat_source, k),
                        );
                    }
                },
                None => {
                    assert(valeur_cle(gres_finale, "ExtGState"@) == valeur_cle(
                        gres0,
                        "ExtGState"@,
                    ));
                },
            }
        }
    }
    Ok(sid)
}

/// Ajouter un objet neuf a l'arene ne change pas la resolution d'un
/// sous-dictionnaire de la page : la reference eventuelle visait un objet
/// deja present.
proof fn lemma_source_stable(
    avant: Seq<(u64, Objet)>,
    apres: Seq<(u64, Objet)>,
    ge: Seq<(String, Objet)>,
    cle: Seq<char>,
    pid: u64,
    sid: u64,
)
    requires
        ferme(avant),
        cherche_spec(avant, pid) matches Some(ap) && ap matches Objet::Dictionnaire(ae) && ae@
            == ge,
        !contient_id(avant, sid),
        forall|x: u64|
            #[trigger] cherche_spec(apres, x) == if x == sid {
                cherche_spec(apres, sid)
            } else {
                cherche_spec(avant, x)
            },
    ensures
        dict_resolu(apres, ge, cle) =~= dict_resolu(avant, ge, cle),
{
    match valeur_cle(ge, cle) {
        Some(Objet::Reference(rid)) => {
            lemma_valeur_cle_ref2_simple(ge, cle, rid);
            crate::modele::lemma_cherche_indice(avant, pid);
            let v = choose|v: int|
                0 <= v < avant.len() && (#[trigger] avant[v]).0 == pid && cherche_spec(avant, pid)
                    == Some(avant[v].1);
            assert(ref_de(avant[v].1, rid));
            assert(contient_id(avant, rid));
            assert(rid != sid);
            assert(cherche_spec(apres, rid) == cherche_spec(avant, rid));
        },
        _ => {},
    }
}

/// Meme stabilite pour le sous-dictionnaire d'une source deja resolue :
/// ses references viennent de la page ou de l'objet source, tous deux
/// anterieurs au flux neuf.
proof fn lemma_source_profonde(
    avant: Seq<(u64, Objet)>,
    apres: Seq<(u64, Objet)>,
    ge: Seq<(String, Objet)>,
    source: Seq<(String, Objet)>,
    cle: Seq<char>,
    pid: u64,
    sid: u64,
)
    requires
        ferme(avant),
        cherche_spec(avant, pid) matches Some(ap) && ap matches Objet::Dictionnaire(ae) && ae@
            == ge,
        source == dict_resolu(avant, ge, "Resources"@),
        !contient_id(avant, sid),
        forall|x: u64|
            #[trigger] cherche_spec(apres, x) == if x == sid {
                cherche_spec(apres, sid)
            } else {
                cherche_spec(avant, x)
            },
    ensures
        dict_resolu(apres, source, cle) =~= dict_resolu(avant, source, cle),
{
    match valeur_cle(source, cle) {
        Some(Objet::Reference(rid)) => {
            lemma_valeur_cle_ref2_simple(source, cle, rid);
            // la reference est portee par la source, elle-meme une valeur
            // de la page ou un objet de l'arene d'origine
            assert(contient_id(avant, rid)) by {
                match valeur_cle(ge, "Resources"@) {
                    Some(Objet::Dictionnaire(x)) => {
                        let vr = valeur_cle(ge, "Resources"@)->Some_0;
                        assert(vr->Dictionnaire_0@ == source);
                        assert(ref_de(vr, rid));
                        lemma_valeur_cle_ref2(ge, "Resources"@, rid);
                        crate::modele::lemma_cherche_indice(avant, pid);
                        let v = choose|v: int|
                            0 <= v < avant.len() && (#[trigger] avant[v]).0 == pid && cherche_spec(
                                avant,
                                pid,
                            ) == Some(avant[v].1);
                        assert(ref_de(avant[v].1, rid));
                    },
                    Some(Objet::Reference(r0)) => {
                        lemma_valeur_cle_ref2_simple(ge, "Resources"@, r0);
                        crate::modele::lemma_cherche_indice(avant, pid);
                        let v = choose|v: int|
                            0 <= v < avant.len() && (#[trigger] avant[v]).0 == pid && cherche_spec(
                                avant,
                                pid,
                            ) == Some(avant[v].1);
                        assert(ref_de(avant[v].1, r0));
                        assert(contient_id(avant, r0));
                        match cherche_spec(avant, r0) {
                            Some(Objet::Dictionnaire(x)) => {
                                let vo = cherche_spec(avant, r0)->Some_0;
                                assert(vo->Dictionnaire_0@ == source);
                                assert(ref_de(vo, rid));
                                crate::modele::lemma_cherche_indice(avant, r0);
                                let w = choose|w: int|
                                    0 <= w < avant.len() && (#[trigger] avant[w]).0 == r0
                                        && cherche_spec(avant, r0) == Some(avant[w].1);
                                assert(ref_de(avant[w].1, rid));
                            },
                            _ => {
                                assert(source.len() == 0);
                                assert(false);
                            },
                        }
                    },
                    _ => {
                        assert(source.len() == 0);
                        assert(false);
                    },
                }
            }
            assert(rid != sid);
            assert(cherche_spec(apres, rid) == cherche_spec(avant, rid));
        },
        _ => {},
    }
}

/// Ajouter un objet neuf ne change ni les lectures existantes ni l'arbre
/// des pages.
proof fn lemma_arbre_intact_push(avant: Document, apres: Document)
    requires
        bien_forme(avant),
        apres.racine == avant.racine,
        apres.objets@.len() == avant.objets@.len() + 1,
        forall|j: int| 0 <= j < avant.objets@.len() ==> (#[trigger] apres.objets@[j]) == avant.objets@[j],
        !contient_id(avant.objets@, apres.objets@[avant.objets@.len() as int].0),
        forall|x: u64|
            #[trigger] cherche_spec(apres.objets@, x) == (if x == apres.objets@[avant.objets@.len() as int].0 {
                Some(apres.objets@[avant.objets@.len() as int].1)
            } else {
                cherche_spec(avant.objets@, x)
            }),
    ensures
        pages_spec(apres) == pages_spec(avant),
{
    let neuf = apres.objets@[avant.objets@.len() as int].0;
    assert(avant.racine != neuf);
    assert(cherche_spec(apres.objets@, avant.racine) == cherche_spec(avant.objets@, avant.racine));
    let p = id_pages(avant)->Some_0;
    assert(p != neuf);
    assert(cherche_spec(apres.objets@, p) == cherche_spec(avant.objets@, p));
}

} // verus!

verus! {

/// Les six ancres de numerotation : bas et haut, a gauche, au centre, a
/// droite.
#[derive(Debug, Clone, Copy, PartialEq, Eq, Structural)]
pub enum PositionNumero {
    BasCentre,
    BasGauche,
    BasDroite,
    HautCentre,
    HautGauche,
    HautDroite,
}

/// Division par deux tronquee vers zero.
pub open spec fn moitie(v: int) -> int {
    if v >= 0 {
        v / 2
    } else {
        -((-v) / 2)
    }
}

/// Le point d'ancrage d'un numero de page, en milliemes, pour une page de
/// `largeur` sur `hauteur`. Les retraits sont des constantes fixes, sans
/// egard a la largeur du numero rendu : un numero long n'est pas recentre.
pub open spec fn ancre(position: PositionNumero, largeur: int, hauteur: int) -> (int, int) {
    match position {
        PositionNumero::BasCentre => (moitie(largeur) - 10000, 30000),
        PositionNumero::BasGauche => (40000, 30000),
        PositionNumero::BasDroite => (largeur - 60000, 30000),
        PositionNumero::HautCentre => (moitie(largeur) - 10000, hauteur - 30000),
        PositionNumero::HautGauche => (40000, hauteur - 30000),
        PositionNumero::HautDroite => (largeur - 60000, hauteur - 30000),
    }
}

/// Trois chiffres de milliemes.
pub open spec fn trois_chiffres(f: int) -> Seq<char> {
    seq![chiffre_car(f / 100 % 10), chiffre_car(f / 10 % 10), chiffre_car(f % 10)]
}

/// Un nombre en milliemes ecrit en notation decimale.
pub open spec fn milli_texte(v: int) -> Seq<char> {
    if v >= 0 {
        chiffres_spec(v / 1000) + seq!['.'] + trois_chiffres(v % 1000)
    } else {
        seq!['-'] + chiffres_spec((-v) / 1000) + seq!['.'] + trois_chiffres((-v) % 1000)
    }
}

/// Le flux de contenu d'un numero de page.
pub open spec fn contenu_numero(
    largeur: int,
    hauteur: int,
    position: PositionNumero,
    taille: int,
    numero: int,
) -> Seq<u8> {
    let xy = ancre(position, largeur, hauteur);
    crate::texte::octets_ascii("BT\n/Fnum "@) + crate::texte::octets_ascii(chiffres_spec(taille))
        + crate::texte::octets_ascii(" Tf\n"@) + crate::texte::octets_ascii(milli_texte(xy.0))
        + crate::texte::octets_ascii(" "@) + crate::texte::octets_ascii(milli_texte(xy.1))
        + crate::texte::octets_ascii(" Td\n("@) + crate::texte::octets_ascii(
        chiffres_spec(numero),
    ) + crate::texte::octets_ascii(") Tj\nET\n"@)
}

/// Les chiffres decimaux, en octets.
fn chiffres_octets(n: u64, sortie: &mut Vec<u8>)
    ensures
        final(sortie)@ == old(sortie)@ + crate::texte::octets_ascii(chiffres_spec(n as int)),
    decreases n,
{
    if n < 10 {
        sortie.push(48 + (n as u8));
        proof {
            assert(final(sortie)@ =~= old(sortie)@ + crate::texte::octets_ascii(
                chiffres_spec(n as int),
            ));
        }
    } else {
        chiffres_octets(n / 10, sortie);
        sortie.push(48 + ((n % 10) as u8));
        proof {
            assert(final(sortie)@ =~= old(sortie)@ + crate::texte::octets_ascii(
                chiffres_spec(n as int),
            ));
        }
    }
}

/// Un nombre en milliemes, ecrit en octets decimaux.
fn milli_octets(v: i64, sortie: &mut Vec<u8>)
    requires
        -4_000_000_000_000 <= v <= 4_000_000_000_000,
    ensures
        final(sortie)@ == old(sortie)@ + crate::texte::octets_ascii(milli_texte(v as int)),
{
    let naturel: u64 = if v >= 0 {
        v as u64
    } else {
        (-v) as u64
    };
    if v < 0 {
        sortie.push(45);
    }
    chiffres_octets(naturel / 1000, sortie);
    sortie.push(46);
    let f = naturel % 1000;
    sortie.push(48 + ((f / 100 % 10) as u8));
    sortie.push(48 + ((f / 10 % 10) as u8));
    sortie.push(48 + ((f % 10) as u8));
    proof {
        assert(final(sortie)@ =~= old(sortie)@ + crate::texte::octets_ascii(
            milli_texte(v as int),
        ));
    }
}

/// Division par deux tronquee, executable.
fn moitie_exec(v: i64) -> (r: i64)
    requires
        -9_000_000_000_000 <= v <= 9_000_000_000_000,
    ensures
        r as int == moitie(v as int),
{
    if v >= 0 {
        v / 2
    } else {
        -((-v) / 2)
    }
}

/// Construit le flux de contenu du numero d'une page.
fn flux_numero(
    largeur: i64,
    hauteur: i64,
    position: PositionNumero,
    taille: u32,
    numero: u64,
) -> (r: Vec<u8>)
    requires
        -3_000_000_000_000 <= largeur <= 3_000_000_000_000,
        -3_000_000_000_000 <= hauteur <= 3_000_000_000_000,
    ensures
        r@ == contenu_numero(largeur as int, hauteur as int, position, taille as int, numero as int),
{
    let (x, y): (i64, i64) = match position {
        PositionNumero::BasCentre => (moitie_exec(largeur) - 10000, 30000),
        PositionNumero::BasGauche => (40000, 30000),
        PositionNumero::BasDroite => (largeur - 60000, 30000),
        PositionNumero::HautCentre => (moitie_exec(largeur) - 10000, hauteur - 30000),
        PositionNumero::HautGauche => (40000, hauteur - 30000),
        PositionNumero::HautDroite => (largeur - 60000, hauteur - 30000),
    };
    let mut sortie: Vec<u8> = Vec::new();
    proof {
        reveal_strlit("BT\n/Fnum ");
        reveal_strlit(" Tf\n");
        reveal_strlit(" ");
        reveal_strlit(" Td\n(");
        reveal_strlit(") Tj\nET\n");
    }
    crate::texte::pousse_litteral(&mut sortie, "BT\n/Fnum ");
    chiffres_octets(taille as u64, &mut sortie);
    crate::texte::pousse_litteral(&mut sortie, " Tf\n");
    milli_octets(x, &mut sortie);
    crate::texte::pousse_litteral(&mut sortie, " ");
    milli_octets(y, &mut sortie);
    crate::texte::pousse_litteral(&mut sortie, " Td\n(");
    chiffres_octets(numero, &mut sortie);
    crate::texte::pousse_litteral(&mut sortie, ") Tj\nET\n");
    proof {
        assert(sortie@ =~= contenu_numero(
            largeur as int,
            hauteur as int,
            position,
            taille as int,
            numero as int,
        ));
    }
    sortie
}

} // verus!

verus! {

/// La geometrie d'une page, son MediaBox propre ou herite, sinon le format
/// A4 : largeur et hauteur en milliemes.
pub open spec fn geometrie_ou_defaut(objets: Seq<(u64, Objet)>, pid: u64) -> (int, int) {
    match boite_de(objets, pid) {
        Some(b) => (b.2 - b.0, b.3 - b.1),
        None => (595000, 842000),
    }
}

/// Un flux de numerotation a ete pose pour la page `pid` : un objet neuf
/// porte exactement le contenu attendu, calcule contre la geometrie
/// d'origine de la page.
pub open spec fn numero_pose(
    avant: Document,
    apres: Document,
    pid: u64,
    position: PositionNumero,
    taille: int,
    numero: int,
) -> bool {
    exists|s: u64|
        {
            &&& !(#[trigger] contient_id(avant.objets@, s))
            &&& cherche_spec(apres.objets@, s) matches Some(f)
            &&& f matches Objet::Flux(fe, fb)
            &&& fe@.len() == 0
            &&& fb@ == contenu_numero(
                geometrie_ou_defaut(avant.objets@, pid).0,
                geometrie_ou_defaut(avant.objets@, pid).1,
                position,
                taille,
                numero,
            )
            &&& flux_rattache(avant.objets@, apres.objets@, pid, s, "Fnum"@)
        }
}

/// Le flux `s` est rattache a la page `pid` : son Contents d'origine le
/// recoit en queue, et ses Resources locales portent la police nommee.
pub open spec fn flux_rattache(
    avant: Seq<(u64, Objet)>,
    apres: Seq<(u64, Objet)>,
    pid: u64,
    s: u64,
    nom_police: Seq<char>,
) -> bool {
    &&& cherche_spec(apres, pid) matches Some(np)
    &&& np matches Objet::Dictionnaire(ne)
    &&& cherche_spec(avant, pid) matches Some(ap)
    &&& ap matches Objet::Dictionnaire(ae)
    &&& contenu_rattache(valeur_cle(ae@, "Contents"@), valeur_cle(ne@, "Contents"@), s)
    &&& valeur_cle(ne@, "Resources"@) matches Some(rv)
    &&& rv matches Objet::Dictionnaire(res)
    &&& valeur_cle(res@, "Font"@) matches Some(fv)
    &&& fv matches Objet::Dictionnaire(fonts)
    &&& (valeur_cle(fonts@, nom_police) matches Some(pf) && pf is Reference)
}

/// Numerote les pages : un flux de contenu par page, ancre a la position
/// demandee, portant `debut`, `debut + 1`, et ainsi de suite. Les retraits
/// de l'ancre sont fixes : un numero a plusieurs chiffres n'est pas
/// recentre. La police est partagee ; chaque page recoit sa copie locale
/// des Resources.
#[verifier::loop_isolation(false)]
#[verifier::rlimit(100)]
pub fn pdf_numeroter(d: &mut Document, debut: u32, position: PositionNumero, taille: u32) -> (r:
    Result<(), Erreur>)
    requires
        bien_forme(*old(d)),
    ensures
        final(d).racine == old(d).racine,
        final(d).chiffrement == old(d).chiffrement,
        match r {
            Ok(()) => {
                &&& bien_forme(*final(d))
                &&& pages_spec(*final(d)) == pages_spec(*old(d))
                &&& forall|x: u64|
                    contient_id(old(d).objets@, x) && !pages_spec(*old(d)).contains(x)
                        ==> #[trigger] cherche_spec(final(d).objets@, x) == cherche_spec(
                        old(d).objets@,
                        x,
                    )
                &&& (pages_distinctes(*old(d)) ==> forall|k: int|
                    #![trigger pages_spec(*old(d))[k]]
                    0 <= k < pages_spec(*old(d)).len() ==> numero_pose(
                        *old(d),
                        *final(d),
                        pages_spec(*old(d))[k],
                        position,
                        taille as int,
                        debut + k,
                    ))
            },
            Err(e) => {
                &&& e == Erreur::Structurelle
                &&& maximum_id(old(d).objets@) + nombre_pages(*old(d)) + 1 >= BORNE_ID
            },
        },
{
    let ghost d0 = *d;
    let mut police: Vec<(String, Objet)> = Vec::new();
    proof {
        reveal_strlit("Type");
        reveal_strlit("Subtype");
        reveal_strlit("BaseFont");
        reveal_strlit("Font");
        reveal_strlit("Type1");
        reveal_strlit("Helvetica");
    }
    police.push(("Type".to_owned(), Objet::Nom("Font".to_owned())));
    police.push(("Subtype".to_owned(), Objet::Nom("Type1".to_owned())));
    police.push(("BaseFont".to_owned(), Objet::Nom("Helvetica".to_owned())));
    let ghost gpolice = police@;
    let objet_police = Objet::Dictionnaire(police);
    proof {
        assert forall|x: u64| !ref_de(objet_police, x) by {
            if ref_de(objet_police, x) {
                let j = choose|j: int|
                    0 <= j < gpolice.len() && ref_de(#[trigger] gpolice[j].1, x);
                assert(gpolice[j].1 is Nom);
            }
        }
    }
    let pages = d.pages_ordonnees();
    let police_id = match d.ajoute(objet_police) {
        Ok(id) => id,
        Err(e) => {
            return Err(e);
        },
    };
    let ghost d1 = *d;
    proof {
        lemma_arbre_intact_push(d0, d1);
        assert(ferme(d1.objets@)) by {
            assert forall|j: int, x: u64|
                0 <= j < d1.objets@.len() && #[trigger] ref_de(d1.objets@[j].1, x) implies
                contient_id(d1.objets@, x) by {
                if j < d0.objets@.len() {
                    assert(d1.objets@[j] == d0.objets@[j]);
                    assert(ref_de(d0.objets@[j].1, x));
                    assert(contient_id(d0.objets@, x));
                } else {
                    assert(!ref_de(objet_police, x));
                    assert(false);
                }
            }
        }
        assert(est_dict_de_type(d1.objets@, d1.racine, "Catalog"@)) by {
            assert(cherche_spec(d1.objets@, d1.racine) == cherche_spec(d0.objets@, d0.racine));
        }
        assert(arbre_pages(d1)) by {
            assert(cherche_spec(d1.objets@, id_pages(d0)->Some_0) == cherche_spec(
                d0.objets@,
                id_pages(d0)->Some_0,
            ));
            assert forall|k: int| 0 <= k < kids_de(d0).len() implies ((#[trigger] kids_de(d0)[k])
                matches Objet::Reference(rr) && est_dict_de_type(d1.objets@, rr, "Page"@)) by {
                let rr = kids_de(d0)[k]->Reference_0;
                assert(est_dict_de_type(d0.objets@, rr, "Page"@));
                assert(cherche_spec(d1.objets@, rr) == cherche_spec(d0.objets@, rr));
            }
        }
        assert(bien_forme(d1));
        assert(pages_spec(d1) == pages_spec(d0));
        assert forall|x: u64| contient_id(d0.objets@, x) implies #[trigger] cherche_spec(
            d1.objets@,
            x,
        ) == cherche_spec(d0.objets@, x) by {}
        reveal_strlit("MediaBox");
        reveal_strlit("Parent");
        assert("MediaBox"@.len() == 8 && "Parent"@.len() == 6 && "Type"@.len() == 4
            && "Subtype"@.len() == 7 && "BaseFont"@.len() == 8);
        reveal_strlit("Subtype");
        assert("BaseFont"@[0] == 'B' && "MediaBox"@[0] == 'M' && "Parent"@[0] == 'P');
        assert(geometrie_conservee(d0.objets@, d1.objets@)) by {
            assert forall|q: u64|
                (#[trigger] cle_objet(d1.objets@, q, "MediaBox"@)) == cle_objet(
                    d0.objets@,
                    q,
                    "MediaBox"@,
                ) && cle_objet(d1.objets@, q, "Parent"@) == cle_objet(
                    d0.objets@,
                    q,
                    "Parent"@,
                ) by {
                if q == police_id {
                    reveal_with_fuel(valeur_cle, 5);
                    assert(valeur_cle(gpolice, "MediaBox"@) is None);
                    assert(valeur_cle(gpolice, "Parent"@) is None);
                } else {
                    assert(cherche_spec(d1.objets@, q) == cherche_spec(d0.objets@, q));
                }
            }
        }
    }
    let mut k: usize = 0;
    while k < pages.len()
        invariant
            bien_forme(d0),
            bien_forme(*d),
            pages@ == pages_spec(d0),
            pages_spec(*d) == pages_spec(d0),
            d.racine == d0.racine,
            d.chiffrement == d0.chiffrement,
            contient_id(d.objets@, police_id),
            0 <= k <= pages@.len(),
            maximum_id(d.objets@) == maximum_id(d0.objets@) + 1 + k,
            geometrie_conservee(d0.objets@, d.objets@),
            forall|x: u64|
                #[trigger] contient_id(d0.objets@, x) ==> contient_id(d.objets@, x),
            forall|x: u64|
                contient_id(d0.objets@, x) && !pages_spec(d0).contains(x)
                    ==> #[trigger] cherche_spec(d.objets@, x) == cherche_spec(d0.objets@, x),
            pages_distinctes(d0) ==> forall|j: int|
                k <= j < pages@.len() ==> #[trigger] cherche_spec(d.objets@, pages@[j])
                    == cherche_spec(d0.objets@, pages@[j]),
            pages_distinctes(d0) ==> forall|q: int|
                #![trigger pages@[q]]
                0 <= q < k ==> numero_pose(d0, *d, pages@[q], position, taille as int, debut + q),
        decreases pages@.len() - k,
    {
        let pid = pages[k];
        proof {
            assert(est_dict_de_type(d.objets@, pid, "Page"@)) by {
                assert(pages_spec(*d)[k as int] == pid);
                assert(kids_de(*d)[k as int]->Reference_0 == pid);
            }
        }
        let boite = match obtenir_mediabox(d, pid) {
            Some(b) => b,
            None => (0, 0, 595000, 842000),
        };
        proof {
            lemma_geometrie_boites(d0.objets@, d.objets@);
            assert(boite_de(d.objets@, pid) == boite_de(d0.objets@, pid));
        }
        let largeur = boite.2 - boite.0;
        let hauteur = boite.3 - boite.1;
        let contenu = flux_numero(largeur, hauteur, position, taille, (debut as u64) + (k as u64));
        let ghost gcontenu = contenu@;
        let ghost avant = *d;
        let sid = match ajouter_overlay_page(d, pid, contenu, "Fnum", police_id, None) {
            Ok(sid) => sid,
            Err(e) => {
                return Err(e);
            },
        };
        proof {
            assert(geometrie_conservee(avant.objets@, d.objets@)) by {
                assert forall|q: u64|
                    (#[trigger] cle_objet(d.objets@, q, "MediaBox"@)) == cle_objet(
                        avant.objets@,
                        q,
                        "MediaBox"@,
                    ) && cle_objet(d.objets@, q, "Parent"@) == cle_objet(
                        avant.objets@,
                        q,
                        "Parent"@,
                    ) by {
                    lemma_cles_distinctes();
                    reveal_strlit("Resources");
                    reveal_strlit("Contents");
                    reveal_strlit("MediaBox");
                    reveal_strlit("Parent");
                    assert("MediaBox"@.len() == 8 && "Resources"@.len() == 9 && "Contents"@.len()
                        == 8 && "Parent"@.len() == 6);
                    assert("MediaBox"@[0] == 'M' && "Contents"@[0] == 'C');
                    assert("MediaBox"@ != "Resources"@ && "MediaBox"@ != "Contents"@ && "Parent"@
                        != "Resources"@ && "Parent"@ != "Contents"@);
                    if q == pid {
                    } else if q == sid {
                        assert(cherche_spec(d.objets@, sid)->Some_0 is Flux);
                        assert(!contient_id(avant.objets@, sid));
                    } else {
                        assert(cherche_spec(d.objets@, q) == cherche_spec(avant.objets@, q));
                    }
                }
            }
            assert forall|x: u64| #[trigger] contient_id(d0.objets@, x) implies contient_id(
                d.objets@,
                x,
            ) by {
                assert(contient_id(avant.objets@, x));
                if x == pid {
                    assert(cherche_spec(d.objets@, pid) is Some);
                } else if x != sid {
                    assert(cherche_spec(d.objets@, x) == cherche_spec(avant.objets@, x));
                }
            }
            assert forall|x: u64|
                contient_id(d0.objets@, x) && !pages_spec(d0).contains(x) implies
                #[trigger] cherche_spec(d.objets@, x) == cherche_spec(d0.objets@, x) by {
                assert(pid == pages_spec(d0)[k as int]);
                assert(x != pid);
                assert(x != sid) by {
                    assert(contient_id(avant.objets@, x));
                }
                assert(cherche_spec(d.objets@, x) == cherche_spec(avant.objets@, x));
            }
            if pages_distinctes(d0) {
                assert forall|j: int|
                    k + 1 <= j < pages@.len() implies #[trigger] cherche_spec(
                        d.objets@,
                        pages@[j],
                    ) == cherche_spec(d0.objets@, pages@[j]) by {
                    assert(pages@[j] != pid);
                    assert(pages@[j] != sid) by {
                        assert(contient_id(d0.objets@, pages@[j])) by {
                            assert(est_dict_de_type(d0.objets@, pages@[j], "Page"@));
                        }
                        assert(contient_id(avant.objets@, pages@[j]));
                    }
                    assert(cherche_spec(d.objets@, pages@[j]) == cherche_spec(
                        avant.objets@,
                        pages@[j],
                    ));
                }
                assert forall|q: int| #![trigger pages@[q]] 0 <= q < k + 1 implies numero_pose(
                    d0,
                    *d,
                    pages@[q],
                    position,
                    taille as int,
                    debut + q,
                ) by {
                    if q < k {
                        assert(numero_pose(d0, avant, pages@[q], position, taille as int, debut + q));
                        let s = choose|s: u64|
                            {
                                &&& !(#[trigger] contient_id(d0.objets@, s))
                                &&& cherche_spec(avant.objets@, s) matches Some(f)
                                &&& f matches Objet::Flux(fe, fb)
                                &&& fe@.len() == 0
                                &&& fb@ == contenu_numero(
                                    geometrie_ou_defaut(d0.objets@, pages@[q]).0,
                                    geometrie_ou_defaut(d0.objets@, pages@[q]).1,
                                    position,
                                    taille as int,
                                    debut + q,
                                )
                                &&& flux_rattache(d0.objets@, avant.objets@, pages@[q], s, "Fnum"@)
                            };
                        assert(s != pid) by {
                            assert(contient_id(d0.objets@, pid));
                        }
                        assert(s != sid) by {
                            assert(cherche_spec(avant.objets@, s) is Some);
                            assert(!contient_id(avant.objets@, sid));
                        }
                        assert(cherche_spec(d.objets@, s) == cherche_spec(avant.objets@, s));
                        assert(flux_rattache(d0.objets@, d.objets@, pages@[q], s, "Fnum"@)) by {
                            assert(pages@[q] != pid && pages@[q] != sid) by {
                                assert(contient_id(d0.objets@, pages@[q])) by {
                                    assert(est_dict_de_type(d0.objets@, pages@[q], "Page"@));
                                }
                                assert(contient_id(avant.objets@, pages@[q]));
                            }
                            assert(cherche_spec(d.objets@, pages@[q]) == cherche_spec(
                                avant.objets@,
                                pages@[q],
                            ));
                        }
                    } else {
                        assert(!contient_id(d0.objets@, sid)) by {
                            if contient_id(d0.objets@, sid) {
                                assert(contient_id(avant.objets@, sid));
                            }
                        }
                        assert(cherche_spec(d.objets@, sid) matches Some(f) && f
                            matches Objet::Flux(fe, fb) && fe@.len() == 0 && fb@ == gcontenu);
                        assert(gcontenu == contenu_numero(
                            geometrie_ou_defaut(d0.objets@, pages@[q]).0,
                            geometrie_ou_defaut(d0.objets@, pages@[q]).1,
                            position,
                            taille as int,
                            debut + q,
                        ));
                        assert(flux_rattache(d0.objets@, d.objets@, pid, sid, "Fnum"@)) by {
                            assert(recouvrement_pose(
                                avant.objets@,
                                d.objets@,
                                pid,
                                sid,
                                "Fnum"@,
                                police_id,
                                None,
                                0,
                            ));
                            assert(cherche_spec(avant.objets@, pid) == cherche_spec(
                                d0.objets@,
                                pid,
                            ));
                        }
                    }
                }
            }
        }
        k = k + 1;
    }
    proof {
        assert(d0 == *old(d));
        if pages_distinctes(*old(d)) {
            assert forall|kk: int|
                #![trigger pages_spec(*old(d))[kk]]
                0 <= kk < pages_spec(*old(d)).len() implies numero_pose(
                *old(d),
                *d,
                pages_spec(*old(d))[kk],
                position,
                taille as int,
                debut + kk,
            ) by {
                assert(pages@[kk] == pages_spec(d0)[kk]);
                assert(numero_pose(d0, *d, pages@[kk], position, taille as int, debut + kk));
            }
        }
    }
    Ok(())
}

} // verus!

verus! {

/// Le flux de contenu d'un filigrane : etat graphique nomme pour
/// l'opacite, police grasse, gris clair, matrice tournee de 45 degres
/// centree sur la page, texte encode WinAnsi.
pub open spec fn contenu_filigrane(cx: int, cy: int, taille: int, texte: Seq<u8>) -> Seq<u8> {
    crate::texte::octets_ascii("q\n/GSwm gs\nBT\n/Fwm "@) + crate::texte::octets_ascii(
        chiffres_spec(taille),
    ) + crate::texte::octets_ascii(" Tf\n0.7 0.7 0.7 rg\n0.70711 0.70711 -0.70711 0.70711 "@)
        + crate::texte::octets_ascii(milli_texte(cx)) + crate::texte::octets_ascii(" "@)
        + crate::texte::octets_ascii(milli_texte(cy)) + crate::texte::octets_ascii(" Tm\n("@)
        + crate::generation::echappe_pdf(crate::texte::winansi(texte)) + crate::texte::octets_ascii(
        ") Tj\nET\nQ\n"@,
    )
}

/// Construit le flux de contenu d'un filigrane.
fn flux_filigrane(cx: i64, cy: i64, taille: u32, texte: &Vec<u8>) -> (r: Vec<u8>)
    requires
        -3_000_000_000_000 <= cx <= 3_000_000_000_000,
        -3_000_000_000_000 <= cy <= 3_000_000_000_000,
    ensures
        r@ == contenu_filigrane(cx as int, cy as int, taille as int, texte@),
{
    let mut sortie: Vec<u8> = Vec::new();
    proof {
        reveal_strlit("q\n/GSwm gs\nBT\n/Fwm ");
        reveal_strlit(" Tf\n0.7 0.7 0.7 rg\n0.70711 0.70711 -0.70711 0.70711 ");
        reveal_strlit(" ");
        reveal_strlit(" Tm\n(");
        reveal_strlit(") Tj\nET\nQ\n");
    }
    crate::texte::pousse_litteral(&mut sortie, "q\n/GSwm gs\nBT\n/Fwm ");
    chiffres_octets(taille as u64, &mut sortie);
    crate::texte::pousse_litteral(
        &mut sortie,
        " Tf\n0.7 0.7 0.7 rg\n0.70711 0.70711 -0.70711 0.70711 ",
    );
    milli_octets(cx, &mut sortie);
    crate::texte::pousse_litteral(&mut sortie, " ");
    milli_octets(cy, &mut sortie);
    crate::texte::pousse_litteral(&mut sortie, " Tm\n(");
    let encode = crate::texte::encoder_winansi(texte);
    let echappe = crate::generation::echapper_pdf(&encode);
    crate::texte::pousse_octets(&mut sortie, &echappe);
    crate::texte::pousse_litteral(&mut sortie, ") Tj\nET\nQ\n");
    proof {
        assert(sortie@ =~= contenu_filigrane(cx as int, cy as int, taille as int, texte@));
    }
    sortie
}

/// L'objet `gid` est l'etat graphique d'opacite : un dictionnaire dont
/// les deux opacites, trait et surface, valent l'opacite demandee.
pub open spec fn etat_opacite(objets: Seq<(u64, Objet)>, gid: u64, opacite: int) -> bool {
    &&& cherche_spec(objets, gid) matches Some(go)
    &&& go matches Objet::Dictionnaire(gee)
    &&& (valeur_cle(gee@, "CA"@) matches Some(ca) && ca matches Objet::Reel(cav) && cav as int
        == opacite)
    &&& (valeur_cle(gee@, "ca"@) matches Some(cb) && cb matches Objet::Reel(cbv) && cbv as int
        == opacite)
}

/// Un filigrane a ete pose pour la page `pid` : un objet neuf porte le
/// contenu attendu, centre sur la geometrie d'origine de la page.
pub open spec fn filigrane_pose(
    avant: Document,
    apres: Document,
    pid: u64,
    taille: int,
    opacite: int,
    texte: Seq<u8>,
) -> bool {
    exists|s: u64|
        {
            &&& !(#[trigger] contient_id(avant.objets@, s))
            &&& cherche_spec(apres.objets@, s) matches Some(f)
            &&& f matches Objet::Flux(fe, fb)
            &&& fe@.len() == 0
            &&& fb@ == contenu_filigrane(
                moitie(geometrie_ou_defaut(avant.objets@, pid).0),
                moitie(geometrie_ou_defaut(avant.objets@, pid).1),
                taille,
                texte,
            )
            &&& flux_rattache(avant.objets@, apres.objets@, pid, s, "Fwm"@)
            &&& opacite_posee(apres.objets@, pid, opacite)
        }
}

/// La page passe par un etat graphique nomme dont les deux opacites, trait
/// et surface, valent l'opacite demandee en milliemes.
pub open spec fn opacite_posee(apres: Seq<(u64, Objet)>, pid: u64, opacite: int) -> bool {
    &&& cherche_spec(apres, pid) matches Some(np)
    &&& np matches Objet::Dictionnaire(ne)
    &&& valeur_cle(ne@, "Resources"@) matches Some(rv)
    &&& rv matches Objet::Dictionnaire(res)
    &&& valeur_cle(res@, "ExtGState"@) matches Some(gv)
    &&& gv matches Objet::Dictionnaire(etats)
    &&& valeur_cle(etats@, "GSwm"@) matches Some(gf)
    &&& gf matches Objet::Reference(gr)
    &&& cherche_spec(apres, gr) matches Some(go)
    &&& go matches Objet::Dictionnaire(gee)
    &&& (valeur_cle(gee@, "CA"@) matches Some(ca) && ca matches Objet::Reel(cav) && cav as int
        == opacite)
    &&& (valeur_cle(gee@, "ca"@) matches Some(cb) && cb matches Objet::Reel(cbv) && cbv as int
        == opacite)
}

/// Pose sur chaque page visee un filigrane unique : une seule instance du
/// texte, en diagonale a 45 degres, centree, rendue a travers un etat
/// graphique d'opacite partagee. L'opacite se donne en milliemes, dans
/// (0, 1000].
#[verifier::loop_isolation(false)]
#[verifier::rlimit(100)]
pub fn pdf_watermark(
    d: &mut Document,
    texte: &Vec<u8>,
    taille: u32,
    opacite_milli: u32,
    pages_cibles: Option<&[u32]>,
) -> (r: Result<(), Erreur>)
    requires
        bien_forme(*old(d)),
        1 <= opacite_milli <= 1000,
    ensures
        final(d).racine == old(d).racine,
        final(d).chiffrement == old(d).chiffrement,
        match r {
            Ok(()) => {
                &&& bien_forme(*final(d))
                &&& pages_spec(*final(d)) == pages_spec(*old(d))
                &&& forall|x: u64|
                    contient_id(old(d).objets@, x) && !pages_spec(*old(d)).contains(x)
                        ==> #[trigger] cherche_spec(final(d).objets@, x) == cherche_spec(
                        old(d).objets@,
                        x,
                    )
                &&& (pages_distinctes(*old(d)) ==> forall|k: int|
                    #![trigger pages_spec(*old(d))[k]]
                    0 <= k < pages_spec(*old(d)).len() ==> if cible_page(
                        vue_cibles(pages_cibles),
                        k + 1,
                    ) {
                        filigrane_pose(
                            *old(d),
                            *final(d),
                            pages_spec(*old(d))[k],
                            taille as int,
                            opacite_milli as int,
                            texte@,
                        )
                    } else {
                        cherche_spec(final(d).objets@, pages_spec(*old(d))[k]) == cherche_spec(
                            old(d).objets@,
                            pages_spec(*old(d))[k],
                        )
                    })
            },
            Err(e) => {
                &&& e == Erreur::Structurelle
                &&& maximum_id(old(d).objets@) + nombre_pages(*old(d)) + 3 >= BORNE_ID
            },
        },
{
    let ghost d0 = *d;
    proof {
        reveal_strlit("Type");
        reveal_strlit("Subtype");
        reveal_strlit("BaseFont");
        reveal_strlit("Font");
        reveal_strlit("Type1");
        reveal_strlit("Helvetica-Bold");
        reveal_strlit("ExtGState");
        reveal_strlit("CA");
        reveal_strlit("ca");
        reveal_strlit("MediaBox");
        reveal_strlit("Parent");
        assert("MediaBox"@.len() == 8 && "Parent"@.len() == 6 && "Type"@.len() == 4
            && "Subtype"@.len() == 7 && "BaseFont"@.len() == 8 && "CA"@.len() == 2 && "ca"@.len()
            == 2);
        assert("BaseFont"@[0] == 'B' && "MediaBox"@[0] == 'M' && "Parent"@[0] == 'P');
    }
    let mut etat: Vec<(String, Objet)> = Vec::new();
    etat.push(("Type".to_owned(), Objet::Nom("ExtGState".to_owned())));
    etat.push(("CA".to_owned(), Objet::Reel(opacite_milli as i64)));
    etat.push(("ca".to_owned(), Objet::Reel(opacite_milli as i64)));
    let ghost getat = etat@;
    let objet_etat = Objet::Dictionnaire(etat);
    proof {
        assert forall|x: u64| !ref_de(objet_etat, x) by {
            if ref_de(objet_etat, x) {
                let j = choose|j: int| 0 <= j < getat.len() && ref_de(#[trigger] getat[j].1, x);
            }
        }
    }
    let pages = d.pages_ordonnees();
    let gs_id = match d.ajoute(objet_etat) {
        Ok(id) => id,
        Err(e) => {
            return Err(e);
        },
    };
    let ghost d1 = *d;
    proof {
        lemma_arbre_intact_push(d0, d1);
        assert(ferme(d1.objets@)) by {
            assert forall|j: int, x: u64|
                0 <= j < d1.objets@.len() && #[trigger] ref_de(d1.objets@[j].1, x) implies
                contient_id(d1.objets@, x) by {
                if j < d0.objets@.len() {
                    assert(d1.objets@[j] == d0.objets@[j]);
                    assert(ref_de(d0.objets@[j].1, x));
                    assert(contient_id(d0.objets@, x));
                } else {
                    assert(!ref_de(objet_etat, x));
                    assert(false);
                }
            }
        }
        assert(est_dict_de_type(d1.objets@, d1.racine, "Catalog"@)) by {
            assert(cherche_spec(d1.objets@, d1.racine) == cherche_spec(d0.objets@, d0.racine));
        }
        assert(arbre_pages(d1)) by {
            assert(cherche_spec(d1.objets@, id_pages(d0)->Some_0) == cherche_spec(
                d0.objets@,
                id_pages(d0)->Some_0,
            ));
            assert forall|k: int| 0 <= k < kids_de(d0).len() implies ((#[trigger] kids_de(d0)[k])
                matches Objet::Reference(rr) && est_dict_de_type(d1.objets@, rr, "Page"@)) by {
                let rr = kids_de(d0)[k]->Reference_0;
                assert(est_dict_de_type(d0.objets@, rr, "Page"@));
                assert(cherche_spec(d1.objets@, rr) == cherche_spec(d0.objets@, rr));
            }
        }
        assert(bien_forme(d1));
        assert(pages_spec(d1) == pages_spec(d0));
    }
    let mut police: Vec<(String, Objet)> = Vec::new();
    police.push(("Type".to_owned(), Objet::Nom("Font".to_owned())));
    police.push(("Subtype".to_owned(), Objet::Nom("Type1".to_owned())));
    police.push(("BaseFont".to_owned(), Objet::Nom("Helvetica-Bold".to_owned())));
    let ghost gpolice = police@;
    let objet_police = Objet::Dictionnaire(police);
    proof {
        assert forall|x: u64| !ref_de(objet_police, x) by {
            if ref_de(objet_police, x) {
                let j = choose|j: int|
                    0 <= j < gpolice.len() && ref_de(#[trigger] gpolice[j].1, x);
            }
        }
    }
    let police_id = match d.ajoute(objet_police) {
        Ok(id) => id,
        Err(e) => {
            return Err(e);
        },
    };
    let ghost d2 = *d;
    proof {
        lemma_arbre_intact_push(d1, d2);
        assert(ferme(d2.objets@)) by {
            assert forall|j: int, x: u64|
                0 <= j < d2.objets@.len() && #[trigger] ref_de(d2.objets@[j].1, x) implies
                contient_id(d2.objets@, x) by {
                if j < d1.objets@.len() {
                    assert(d2.objets@[j] == d1.objets@[j]);
                    assert(ref_de(d1.objets@[j].1, x));
                    assert(contient_id(d1.objets@, x));
                } else {
                    assert(!ref_de(objet_police, x));
                    assert(false);
                }
            }
        }
        assert(est_dict_de_type(d2.objets@, d2.racine, "Catalog"@)) by {
            assert(cherche_spec(d2.objets@, d2.racine) == cherche_spec(d1.objets@, d1.racine));
        }
        assert(arbre_pages(d2)) by {
            assert(cherche_spec(d2.objets@, id_pages(d1)->Some_0) == cherche_spec(
                d1.objets@,
                id_pages(d1)->Some_0,
            ));
            assert forall|k: int| 0 <= k < kids_de(d1).len() implies ((#[trigger] kids_de(d1)[k])
                matches Objet::Reference(rr) && est_dict_de_type(d2.objets@, rr, "Page"@)) by {
                let rr = kids_de(d1)[k]->Reference_0;
                assert(est_dict_de_type(d1.objets@, rr, "Page"@));
                assert(cherche_spec(d2.objets@, rr) == cherche_spec(d1.objets@, rr));
            }
        }
        assert(bien_forme(d2));
        assert(pages_spec(d2) == pages_spec(d0));
        assert forall|x: u64| contient_id(d0.objets@, x) implies #[trigger] cherche_spec(
            d2.objets@,
            x,
        ) == cherche_spec(d0.objets@, x) by {
            assert(cherche_spec(d1.objets@, x) == cherche_spec(d0.objets@, x));
        }
        reveal_strlit("CA");
        reveal_strlit("ca");
        assert("CA"@.len() == 2 && "ca"@.len() == 2 && "Type"@.len() == 4);
        assert("CA"@[0] == 'C' && "ca"@[0] == 'c' && "Type"@[0] == 'T');
        assert(etat_opacite(d2.objets@, gs_id, opacite_milli as int)) by {
            reveal_with_fuel(valeur_cle, 5);
            assert(cherche_spec(d1.objets@, gs_id)->Some_0->Dictionnaire_0@ == getat);
            assert(getat.drop_first()[0] == getat[1]);
            assert(getat.drop_first().drop_first()[0] == getat[2]);
            assert(valeur_cle(getat, "CA"@) == Some(getat[1].1));
            assert(valeur_cle(getat, "ca"@) == Some(getat[2].1));
            assert(cherche_spec(d2.objets@, gs_id) == cherche_spec(d1.objets@, gs_id));
        }
        reveal_with_fuel(valeur_cle, 5);
        assert(geometrie_conservee(d0.objets@, d2.objets@)) by {
            assert forall|q: u64|
                (#[trigger] cle_objet(d2.objets@, q, "MediaBox"@)) == cle_objet(
                    d0.objets@,
                    q,
                    "MediaBox"@,
                ) && cle_objet(d2.objets@, q, "Parent"@) == cle_objet(
                    d0.objets@,
                    q,
                    "Parent"@,
                ) by {
                if q == police_id {
                    assert(valeur_cle(gpolice, "MediaBox"@) is None);
                    assert(valeur_cle(gpolice, "Parent"@) is None);
                } else if q == gs_id {
                    assert(valeur_cle(getat, "MediaBox"@) is None);
                    assert(valeur_cle(getat, "Parent"@) is None);
                    assert(cherche_spec(d2.objets@, q) == cherche_spec(d1.objets@, q));
                } else {
                    assert(cherche_spec(d1.objets@, q) == cherche_spec(d0.objets@, q));
                    assert(cherche_spec(d2.objets@, q) == cherche_spec(d1.objets@, q));
                }
            }
        }
    }
    let mut k: usize = 0;
    while k < pages.len()
        invariant
            bien_forme(d0),
            bien_forme(*d),
            pages@ == pages_spec(d0),
            pages_spec(*d) == pages_spec(d0),
            d.racine == d0.racine,
            d.chiffrement == d0.chiffrement,
            contient_id(d.objets@, police_id),
            contient_id(d.objets@, gs_id),
            !contient_id(d0.objets@, gs_id),
            0 <= k <= pages@.len(),
            maximum_id(d.objets@) <= maximum_id(d0.objets@) + 2 + k,
            geometrie_conservee(d0.objets@, d.objets@),
            etat_opacite(d.objets@, gs_id, opacite_milli as int),
            forall|x: u64| #[trigger] contient_id(d0.objets@, x) ==> contient_id(d.objets@, x),
            forall|x: u64|
                contient_id(d0.objets@, x) && !pages_spec(d0).contains(x)
                    ==> #[trigger] cherche_spec(d.objets@, x) == cherche_spec(d0.objets@, x),
            pages_distinctes(d0) ==> forall|j: int|
                k <= j < pages@.len() ==> #[trigger] cherche_spec(d.objets@, pages@[j])
                    == cherche_spec(d0.objets@, pages@[j]),
            pages_distinctes(d0) ==> forall|q: int|
                #![trigger pages@[q]]
                0 <= q < k ==> if cible_page(vue_cibles(pages_cibles), q + 1) {
                    filigrane_pose(d0, *d, pages@[q], taille as int, opacite_milli as int, texte@)
                } else {
                    cherche_spec(d.objets@, pages@[q]) == cherche_spec(d0.objets@, pages@[q])
                },
        decreases pages@.len() - k,
    {
        if est_cible(pages_cibles, k + 1) {
            let pid = pages[k];
            proof {
                assert(est_dict_de_type(d.objets@, pid, "Page"@)) by {
                    assert(pages_spec(*d)[k as int] == pid);
                    assert(kids_de(*d)[k as int]->Reference_0 == pid);
                }
            }
            let boite = match obtenir_mediabox(d, pid) {
                Some(b) => b,
                None => (0, 0, 595000, 842000),
            };
            proof {
                lemma_geometrie_boites(d0.objets@, d.objets@);
                assert(boite_de(d.objets@, pid) == boite_de(d0.objets@, pid));
            }
            let cx = moitie_exec(boite.2 - boite.0);
            let cy = moitie_exec(boite.3 - boite.1);
            let contenu = flux_filigrane(cx, cy, taille, texte);
            let ghost gcontenu = contenu@;
            let ghost avant = *d;
            let sid = match ajouter_overlay_page(
                d,
                pid,
                contenu,
                "Fwm",
                police_id,
                Some(("GSwm", gs_id)),
            ) {
                Ok(sid) => sid,
                Err(e) => {
                    return Err(e);
                },
            };
            proof {
                assert(geometrie_conservee(avant.objets@, d.objets@)) by {
                    assert forall|q: u64|
                        (#[trigger] cle_objet(d.objets@, q, "MediaBox"@)) == cle_objet(
                            avant.objets@,
                            q,
                            "MediaBox"@,
                        ) && cle_objet(d.objets@, q, "Parent"@) == cle_objet(
                            avant.objets@,
                            q,
                            "Parent"@,
                        ) by {
                        lemma_cles_distinctes();
                        reveal_strlit("Resources");
                        reveal_strlit("Contents");
                        reveal_strlit("MediaBox");
                        reveal_strlit("Parent");
                        assert("MediaBox"@.len() == 8 && "Resources"@.len() == 9
                            && "Contents"@.len() == 8 && "Parent"@.len() == 6);
                        assert("MediaBox"@[0] == 'M' && "Contents"@[0] == 'C');
                        assert("MediaBox"@ != "Resources"@ && "MediaBox"@ != "Contents"@
                            && "Parent"@ != "Resources"@ && "Parent"@ != "Contents"@);
                        if q == pid {
                        } else if q == sid {
                            assert(cherche_spec(d.objets@, sid)->Some_0 is Flux);
                            assert(!contient_id(avant.objets@, sid));
                        } else {
                            assert(cherche_spec(d.objets@, q) == cherche_spec(avant.objets@, q));
                        }
                    }
                }
                assert forall|x: u64| #[trigger] contient_id(d0.objets@, x) implies contient_id(
                    d.objets@,
                    x,
                ) by {
                    assert(contient_id(avant.objets@, x));
                    if x == pid {
                        assert(cherche_spec(d.objets@, pid) is Some);
                    } else if x != sid {
                        assert(cherche_spec(d.objets@, x) == cherche_spec(avant.objets@, x));
                    }
                }
                assert forall|x: u64|
                    contient_id(d0.objets@, x) && !pages_spec(d0).contains(x) implies
                    #[trigger] cherche_spec(d.objets@, x) == cherche_spec(d0.objets@, x) by {
                    assert(pid == pages_spec(d0)[k as int]);
                    assert(x != pid);
                    assert(x != sid) by {
                        assert(contient_id(avant.objets@, x));
                    }
                    assert(cherche_spec(d.objets@, x) == cherche_spec(avant.objets@, x));
                }
                assert(etat_opacite(d.objets@, gs_id, opacite_milli as int)) by {
                    assert(gs_id != pid) by {
                        assert(contient_id(d0.objets@, pid)) by {
                            assert(est_dict_de_type(d0.objets@, pid, "Page"@));
                        }
                    }
                    assert(gs_id != sid) by {
                        assert(contient_id(avant.objets@, gs_id));
                    }
                    assert(cherche_spec(d.objets@, gs_id) == cherche_spec(avant.objets@, gs_id));
                }
                if pages_distinctes(d0) {
                    assert forall|j: int|
                        k + 1 <= j < pages@.len() implies #[trigger] cherche_spec(
                            d.objets@,
                            pages@[j],
                        ) == cherche_spec(d0.objets@, pages@[j]) by {
                        assert(pages@[j] != pid);
                        assert(pages@[j] != sid) by {
                            assert(contient_id(d0.objets@, pages@[j])) by {
                                assert(est_dict_de_type(d0.objets@, pages@[j], "Page"@));
                            }
                            assert(contient_id(avant.objets@, pages@[j]));
                        }
                        assert(cherche_spec(d.objets@, pages@[j]) == cherche_spec(
                            avant.objets@,
                            pages@[j],
                        ));
                    }
                    assert forall|q: int|
                        #![trigger pages@[q]]
                        0 <= q < k + 1 implies (if cible_page(vue_cibles(pages_cibles), q + 1) {
                        filigrane_pose(d0, *d, pages@[q], taille as int, opacite_milli as int, texte@)
                    } else {
                        cherche_spec(d.objets@, pages@[q]) == cherche_spec(d0.objets@, pages@[q])
                    }) by {
                        assert(pages@[q] != sid) by {
                            assert(contient_id(d0.objets@, pages@[q])) by {
                                assert(est_dict_de_type(d0.objets@, pages@[q], "Page"@));
                            }
                            assert(contient_id(avant.objets@, pages@[q]));
                        }
                        if q < k && cible_page(vue_cibles(pages_cibles), q + 1) {
                            assert(filigrane_pose(
                                d0,
                                avant,
                                pages@[q],
                                taille as int,
                                opacite_milli as int,
                                texte@,
                            ));
                            let s = choose|s: u64|
                                {
                                    &&& !(#[trigger] contient_id(d0.objets@, s))
                                    &&& cherche_spec(avant.objets@, s) matches Some(f)
                                    &&& f matches Objet::Flux(fe, fb)
                                    &&& fe@.len() == 0
                                    &&& fb@ == contenu_filigrane(
                                        moitie(geometrie_ou_defaut(d0.objets@, pages@[q]).0),
                                        moitie(geometrie_ou_defaut(d0.objets@, pages@[q]).1),
                                        taille as int,
                                        texte@,
                                    )
                                    &&& flux_rattache(
                                        d0.objets@,
                                        avant.objets@,
                                        pages@[q],
                                        s,
                                        "Fwm"@,
                                    )
                                    &&& opacite_posee(avant.objets@, pages@[q], opacite_milli as int)
                                };
                            assert(s != pid) by {
                                assert(contient_id(d0.objets@, pid));
                            }
                            assert(s != sid) by {
                                assert(cherche_spec(avant.objets@, s) is Some);
                                assert(!contient_id(avant.objets@, sid));
                            }
                            assert(cherche_spec(d.objets@, s) == cherche_spec(avant.objets@, s));
                            assert(pages@[q] != pid);
                            assert(cherche_spec(d.objets@, pages@[q]) == cherche_spec(
                                avant.objets@,
                                pages@[q],
                            ));
                            assert(flux_rattache(d0.objets@, d.objets@, pages@[q], s, "Fwm"@));
                            assert(opacite_posee(d.objets@, pages@[q], opacite_milli as int)) by {
                                let gr = valeur_cle(
                                    cherche_spec(
                                        avant.objets@,
                                        pages@[q],
                                    )->Some_0->Dictionnaire_0@,
                                    "Resources"@,
                                )->Some_0->Dictionnaire_0@;
                                let gid = valeur_cle(
                                    valeur_cle(gr, "ExtGState"@)->Some_0->Dictionnaire_0@,
                                    "GSwm"@,
                                )->Some_0->Reference_0;
                                assert(cherche_spec(avant.objets@, gid) is Some);
                                assert(gid != sid) by {
                                    assert(contient_id(avant.objets@, gid));
                                }
                                if gid != pid {
                                    assert(cherche_spec(d.objets@, gid) == cherche_spec(
                                        avant.objets@,
                                        gid,
                                    ));
                                } else {
                                    // la page retouchee garde ses entrees
                                    // d'opacite : seules Resources et
                                    // Contents ont bouge
                                    reveal_strlit("CA");
                                    reveal_strlit("ca");
                                    reveal_strlit("Resources");
                                    reveal_strlit("Contents");
                                    assert("CA"@.len() == 2 && "ca"@.len() == 2
                                        && "Resources"@.len() == 9 && "Contents"@.len() == 8);
                                    assert(recouvrement_pose(
                                        avant.objets@,
                                        d.objets@,
                                        pid,
                                        sid,
                                        "Fwm"@,
                                        police_id,
                                        nom_etat_vue(Some(("GSwm", gs_id))),
                                        id_etat_vue(Some(("GSwm", gs_id))),
                                    ));
                                }
                            }
                        } else if q == k && cible_page(vue_cibles(pages_cibles), q + 1) {
                            assert(!contient_id(d0.objets@, sid)) by {
                                if contient_id(d0.objets@, sid) {
                                    assert(contient_id(avant.objets@, sid));
                                }
                            }
                            assert(cherche_spec(d.objets@, sid) matches Some(f) && f
                                matches Objet::Flux(fe, fb) && fe@.len() == 0 && fb@ == gcontenu);
                            assert(flux_rattache(d0.objets@, d.objets@, pid, sid, "Fwm"@)) by {
                                assert(recouvrement_pose(
                                    avant.objets@,
                                    d.objets@,
                                    pid,
                                    sid,
                                    "Fwm"@,
                                    police_id,
                                    nom_etat_vue(Some(("GSwm", gs_id))),
                                    id_etat_vue(Some(("GSwm", gs_id))),
                                ));
                                assert(cherche_spec(avant.objets@, pid) == cherche_spec(
                                    d0.objets@,
                                    pid,
                                ));
                            }
                            assert(opacite_posee(d.objets@, pid, opacite_milli as int)) by {
                                assert(recouvrement_pose(
                                    avant.objets@,
                                    d.objets@,
                                    pid,
                                    sid,
                                    "Fwm"@,
                                    police_id,
                                    nom_etat_vue(Some(("GSwm", gs_id))),
                                    id_etat_vue(Some(("GSwm", gs_id))),
                                ));
                                assert(gs_id != pid) by {
                                    assert(contient_id(d0.objets@, pid)) by {
                                        assert(est_dict_de_type(d0.objets@, pid, "Page"@));
                                    }
                                }
                                assert(gs_id != sid) by {
                                    assert(contient_id(avant.objets@, gs_id));
                                }
                                assert(cherche_spec(d.objets@, gs_id) == cherche_spec(
                                    avant.objets@,
                                    gs_id,
                                ));
                            }
                        } else {
                            // page non visee : rien n'a bouge pour elle
                            assert(pages@[q] != pid || !cible_page(
                                vue_cibles(pages_cibles),
                                q + 1,
                            ));
                            if pages@[q] != pid {
                                assert(cherche_spec(d.objets@, pages@[q]) == cherche_spec(
                                    avant.objets@,
                                    pages@[q],
                                ));
                            }
                        }
                    }
                }
            }
        }
        k = k + 1;
    }
    proof {
        assert(d0 == *old(d));
        if pages_distinctes(*old(d)) {
            assert forall|kk: int|
                #![trigger pages_spec(*old(d))[kk]]
                0 <= kk < pages_spec(*old(d)).len() implies (if cible_page(
                vue_cibles(pages_cibles),
                kk + 1,
            ) {
                filigrane_pose(
                    *old(d),
                    *d,
                    pages_spec(*old(d))[kk],
                    taille as int,
                    opacite_milli as int,
                    texte@,
                )
            } else {
                cherche_spec(d.objets@, pages_spec(*old(d))[kk]) == cherche_spec(
                    old(d).objets@,
                    pages_spec(*old(d))[kk],
                )
            }) by {
                assert(pages@[kk] == pages_spec(d0)[kk]);
                if cible_page(vue_cibles(pages_cibles), kk + 1) {
                    assert(filigrane_pose(
                        d0,
                        *d,
                        pages@[kk],
                        taille as int,
                        opacite_milli as int,
                        texte@,
                    ));
                } else {
                    assert(cherche_spec(d.objets@, pages@[kk]) == cherche_spec(
                        d0.objets@,
                        pages@[kk],
                    ));
                }
            }
        }
    }
    Ok(())
}

} // verus!
