//! Traitements de texte du moteur : remplacement de motifs, decoupe en
//! lignes a largeur bornee, encodage WinAnsi, nettoyage de balisage HTML.
//! Tout travaille sur des octets UTF-8.
use vstd::prelude::*;

verus! {

/// Le remplacement, de gauche a droite et sans recouvrement, de chaque
/// occurrence de `pat` par `rep`.
pub open spec fn remplace_seq(s: Seq<u8>, pat: Seq<u8>, rep: Seq<u8>) -> Seq<u8>
    decreases s.len(),
{
    if s.len() == 0 {
        s
    } else if pat.len() >= 1 && s.len() >= pat.len() && s.subrange(0, pat.len() as int) == pat {
        rep + remplace_seq(s.skip(pat.len() as int), pat, rep)
    } else {
        seq![s[0]] + remplace_seq(s.drop_first(), pat, rep)
    }
}

/// Le motif `pat` parait-il dans `s` a la position `i` ?
#[verifier::loop_isolation(false)]
fn correspond_en(s: &Vec<u8>, i: usize, pat: &[u8]) -> (r: bool)
    requires
        i <= s@.len(),
    ensures
        r == (i + pat@.len() <= s@.len() && s@.subrange(i as int, i as int + pat@.len())
            =~= pat@),
{
    if pat.len() > s.len() - i {
        return false;
    }
    let mut j: usize = 0;
    while j < pat.len()
        invariant
            0 <= j <= pat@.len(),
            i + pat@.len() <= s@.len(),
            forall|q: int| 0 <= q < j ==> (#[trigger] s@[i + q]) == pat@[q],
        decreases pat@.len() - j,
    {
        if s[i + j] != pat[j] {
            proof {
                assert(s@.subrange(i as int, i as int + pat@.len())[j as int] == s@[i + j]);
            }
            return false;
        }
        j = j + 1;
    }
    proof {
        assert forall|q: int| 0 <= q < pat@.len() implies s@.subrange(
            i as int,
            i as int + pat@.len(),
        )[q] == pat@[q] by {
            assert(s@[i + q] == pat@[q]);
        }
        assert(s@.subrange(i as int, i as int + pat@.len()) =~= pat@);
    }
    true
}

/// Remplace chaque occurrence de `pat` par `rep`, de gauche a droite.
#[verifier::loop_isolation(false)]
pub fn remplacer(s: &Vec<u8>, pat: &[u8], rep: &[u8]) -> (r: Vec<u8>)
    requires
        pat@.len() >= 1,
    ensures
        r@ == remplace_seq(s@, pat@, rep@),
{
    let mut sortie: Vec<u8> = Vec::new();
    proof {
        assert(s@.skip(0) =~= s@);
        assert(Seq::<u8>::empty() + remplace_seq(s@, pat@, rep@) =~= remplace_seq(s@, pat@, rep@));
    }
    let mut i: usize = 0;
    while i < s.len()
        invariant
            0 <= i <= s@.len(),
            remplace_seq(s@, pat@, rep@) == sortie@ + remplace_seq(s@.skip(i as int), pat@, rep@),
        decreases s@.len() - i,
    {
        let ghost reste = s@.skip(i as int);
        if correspond_en(s, i, pat) {
            proof {
                assert(reste.subrange(0, pat@.len() as int) =~= s@.subrange(
                    i as int,
                    i as int + pat@.len(),
                ));
                assert(reste.skip(pat@.len() as int) =~= s@.skip(i as int + pat@.len() as int));
            }
            let ghost sortie0 = sortie@;
            let mut j: usize = 0;
            while j < rep.len()
                invariant
                    0 <= j <= rep@.len(),
                    sortie@ == sortie0 + rep@.subrange(0, j as int),
                decreases rep@.len() - j,
            {
                sortie.push(rep[j]);
                proof {
                    assert(rep@.subrange(0, j as int).push(rep@[j as int]) =~= rep@.subrange(
                        0,
                        j + 1,
                    ));
                }
                j = j + 1;
            }
            proof {
                assert(rep@.subrange(0, rep@.len() as int) =~= rep@);
                assert(sortie@ + remplace_seq(s@.skip(i as int + pat@.len() as int), pat@, rep@)
                    =~= remplace_seq(s@, pat@, rep@));
            }
            i = i + pat.len();
        } else {
            proof {
                if reste.len() >= pat@.len() && reste.subrange(0, pat@.len() as int) == pat@ {
                    assert(reste.subrange(0, pat@.len() as int) =~= s@.subrange(
                        i as int,
                        i as int + pat@.len(),
                    ));
                    assert(false);
                }
                assert(reste[0] == s@[i as int]);
                assert(reste.drop_first() =~= s@.skip(i as int + 1));
            }
            sortie.push(s[i]);
            proof {
                assert(sortie@ + remplace_seq(s@.skip(i as int + 1), pat@, rep@) =~= remplace_seq(
                    s@,
                    pat@,
                    rep@,
                ));
            }
            i = i + 1;
        }
    }
    proof {
        assert(s@.skip(s@.len() as int) =~= Seq::<u8>::empty());
        assert(sortie@ =~= remplace_seq(s@, pat@, rep@));
    }
    sortie
}

} // verus!

verus! {

/// Les octets d'une suite de caracteres ASCII.
pub open spec fn octets_ascii(s: Seq<char>) -> Seq<u8> {
    s.map_values(|c: char| c as u8)
}

/// Ajoute a `v` les octets d'un litteral ASCII.
pub fn pousse_litteral(v: &mut Vec<u8>, s: &str)
    requires
        vstd::utf8::is_ascii_chars(s@),
    ensures
        final(v)@ == old(v)@ + octets_ascii(s@),
{
    let b = s.as_bytes();
    proof {
        vstd::utf8::is_ascii_chars_encode_utf8(s@);
    }
    let mut i: usize = 0;
    while i < b.len()
        invariant
            vstd::utf8::is_ascii_chars(s@),
            b@ == vstd::utf8::encode_utf8(s@),
            b@.len() == s@.len(),
            forall|q: int| 0 <= q < s@.len() ==> (#[trigger] b@[q]) == s@[q] as u8,
            0 <= i <= b@.len(),
            v@ == old(v)@ + octets_ascii(s@).subrange(0, i as int),
        decreases b@.len() - i,
    {
        v.push(b[i]);
        proof {
            assert(octets_ascii(s@).subrange(0, i as int).push(octets_ascii(s@)[i as int])
                =~= octets_ascii(s@).subrange(0, i + 1));
        }
        i = i + 1;
    }
    proof {
        assert(octets_ascii(s@).subrange(0, s@.len() as int) =~= octets_ascii(s@));
    }
}

/// Ajoute a `v` le contenu de `o`.
pub fn pousse_octets(v: &mut Vec<u8>, o: &Vec<u8>)
    ensures
        final(v)@ == old(v)@ + o@,
{
    let mut i: usize = 0;
    while i < o.len()
        invariant
            0 <= i <= o@.len(),
            v@ == old(v)@ + o@.subrange(0, i as int),
        decreases o@.len() - i,
    {
        v.push(o[i]);
        proof {
            assert(o@.subrange(0, i as int).push(o@[i as int]) =~= o@.subrange(0, i + 1));
        }
        i = i + 1;
    }
    proof {
        assert(o@.subrange(0, o@.len() as int) =~= o@);
    }
}

/// L'indice de la premiere occurrence de `b`, ou la longueur si absent.
pub open spec fn premiere(s: Seq<u8>, b: u8) -> int
    decreases s.len(),
{
    if s.len() == 0 {
        0
    } else if s[0] == b {
        0
    } else {
        1 + premiere(s.drop_first(), b)
    }
}

pub proof fn lemma_premiere_bornes(s: Seq<u8>, b: u8)
    ensures
        0 <= premiere(s, b) <= s.len(),
        premiere(s, b) < s.len() ==> s[premiere(s, b)] == b,
    decreases s.len(),
{
    if s.len() > 0 && s[0] != b {
        lemma_premiere_bornes(s.drop_first(), b);
    }
}

/// La ligne sans son eventuel retour chariot final.
pub open spec fn sans_cr(s: Seq<u8>) -> Seq<u8> {
    if s.len() > 0 && s[s.len() - 1] == 13 {
        s.drop_last()
    } else {
        s
    }
}

/// Les lignes du texte : coupees sur 10 (saut de ligne), delestees d'un 13
/// final, sans ligne vide apres un saut terminal.
pub open spec fn lignes_de(s: Seq<u8>) -> Seq<Seq<u8>>
    decreases s.len(),
    via lignes_de_decroit
{
    if s.len() == 0 {
        Seq::empty()
    } else {
        let p = premiere(s, 10);
        if p >= s.len() {
            seq![sans_cr(s)]
        } else {
            seq![sans_cr(s.take(p))] + lignes_de(s.skip(p + 1))
        }
    }
}

#[via_fn]
proof fn lignes_de_decroit(s: Seq<u8>) {
    if s.len() > 0 {
        lemma_premiere_bornes(s, 10);
    }
}

/// Les blancs de tete (espace, tabulation) retires.
pub open spec fn saute_blancs(s: Seq<u8>) -> Seq<u8>
    decreases s.len(),
{
    if s.len() > 0 && (s[0] == 32 || s[0] == 9) {
        saute_blancs(s.drop_first())
    } else {
        s
    }
}

pub proof fn lemma_saute_blancs_len(s: Seq<u8>)
    ensures
        saute_blancs(s).len() <= s.len(),
        s.len() > 0 && (s[0] == 32 || s[0] == 9) ==> saute_blancs(s).len() < s.len(),
    decreases s.len(),
{
    if s.len() > 0 && (s[0] == 32 || s[0] == 9) {
        lemma_saute_blancs_len(s.drop_first());
    }
}

/// L'indice de la derniere espace, ou la longueur si aucune.
pub open spec fn derniere_espace(s: Seq<u8>) -> int
    decreases s.len(),
{
    if s.len() == 0 {
        0
    } else if s[s.len() - 1] == 32 {
        s.len() - 1
    } else {
        let d = derniere_espace(s.drop_last());
        if d == s.len() - 1 {
            s.len() as int
        } else {
            d
        }
    }
}

pub proof fn lemma_derniere_espace_bornes(s: Seq<u8>)
    ensures
        0 <= derniere_espace(s) <= s.len(),
        derniere_espace(s) < s.len() ==> s[derniere_espace(s)] == 32,
    decreases s.len(),
{
    if s.len() > 0 && s[s.len() - 1] != 32 {
        lemma_derniere_espace_bornes(s.drop_last());
        if derniere_espace(s.drop_last()) < s.len() - 1 {
            assert(s.drop_last()[derniere_espace(s.drop_last())] == s[derniere_espace(
                s.drop_last(),
            )]);
        }
    }
}

/// La decoupe d'une ligne en morceaux d'au plus `max` octets : coupe a la
/// derniere espace avant la limite, sinon en pleine largeur, les blancs de
/// reprise sautes.
pub open spec fn enveloppe(ligne: Seq<u8>, max: int) -> Seq<Seq<u8>>
    decreases ligne.len(),
    when max >= 1
    via enveloppe_decroit
{
    if ligne.len() <= max {
        seq![ligne]
    } else {
        let tete = ligne.take(max);
        let de = derniere_espace(tete);
        let coupe = if de >= max {
            max
        } else {
            de
        };
        seq![ligne.take(coupe)] + enveloppe(saute_blancs(ligne.skip(coupe)), max)
    }
}

#[via_fn]
proof fn enveloppe_decroit(ligne: Seq<u8>, max: int) {
    if ligne.len() > max {
        let tete = ligne.take(max);
        lemma_derniere_espace_bornes(tete);
        let de = derniere_espace(tete);
        let coupe = if de >= max {
            max
        } else {
            de
        };
        let reste = ligne.skip(coupe);
        lemma_saute_blancs_len(reste);
        if coupe == 0 {
            assert(tete[0] == 32);
            assert(reste[0] == ligne[0]);
            assert(tete[0] == ligne[0]);
        }
    }
}

/// La decoupe complete d'un texte : chaque ligne enveloppee, le tout mis
/// bout a bout.
pub open spec fn decoupe_lignes(s: Seq<u8>, max: int) -> Seq<Seq<u8>> {
    lignes_de(s).map_values(|l: Seq<u8>| enveloppe(l, max)).flatten()
}

/// Copie `s[de..a]` dans un nouveau vecteur.
pub fn copie_tranche(s: &Vec<u8>, de: usize, a: usize) -> (r: Vec<u8>)
    requires
        0 <= de <= a <= s@.len(),
    ensures
        r@ == s@.subrange(de as int, a as int),
{
    let mut r: Vec<u8> = Vec::new();
    let mut i: usize = de;
    while i < a
        invariant
            de <= i <= a <= s@.len(),
            r@ == s@.subrange(de as int, i as int),
        decreases a - i,
    {
        r.push(s[i]);
        proof {
            assert(s@.subrange(de as int, i as int).push(s@[i as int]) =~= s@.subrange(
                de as int,
                i + 1,
            ));
        }
        i = i + 1;
    }
    r
}

/// L'indice de la premiere occurrence de `b` a partir de `de`, ou la
/// longueur si absent.
#[verifier::loop_isolation(false)]
fn cherche_octet(s: &Vec<u8>, de: usize, b: u8) -> (r: usize)
    requires
        de <= s@.len(),
    ensures
        de + premiere(s@.skip(de as int), b) == r,
        r <= s@.len(),
{
    let mut i: usize = de;
    while i < s.len()
        invariant
            de <= i <= s@.len(),
            premiere(s@.skip(de as int), b) == (i - de) + premiere(s@.skip(i as int), b),
        decreases s@.len() - i,
    {
        proof {
            assert(s@.skip(i as int)[0] == s@[i as int]);
            assert(s@.skip(i as int).drop_first() =~= s@.skip(i as int + 1));
        }
        if s[i] == b {
            proof {
                lemma_premiere_bornes(s@.skip(de as int), b);
            }
            return i;
        }
        i = i + 1;
    }
    proof {
        assert(s@.skip(s@.len() as int).len() == 0);
    }
    s.len()
}

/// L'indice de la derniere espace de `s[0..fin]`, ou `fin` si aucune.
fn cherche_derniere_espace(s: &Vec<u8>, fin: usize) -> (r: usize)
    requires
        fin <= s@.len(),
    ensures
        r == derniere_espace(s@.subrange(0, fin as int)),
{
    let mut i: usize = fin;
    while i > 0
        invariant
            0 <= i <= fin <= s@.len(),
            derniere_espace(s@.subrange(0, fin as int)) == (if derniere_espace(
                s@.subrange(0, i as int),
            ) == i as int {
                fin as int
            } else {
                derniere_espace(s@.subrange(0, i as int))
            }),
        decreases i,
    {
        proof {
            assert(s@.subrange(0, i as int).drop_last() =~= s@.subrange(0, i as int - 1));
            assert(s@.subrange(0, i as int)[i - 1] == s@[i - 1]);
            lemma_derniere_espace_bornes(s@.subrange(0, i as int - 1));
        }
        if s[i - 1] == 32 {
            return i - 1;
        }
        i = i - 1;
    }
    proof {
        assert(s@.subrange(0, 0).len() == 0);
    }
    fin
}

/// Verse dans `acc` la decoupe de `ligne` en morceaux d'au plus `max`.
#[verifier::loop_isolation(false)]
fn enveloppe_dans(acc: &mut Vec<Vec<u8>>, ligne: Vec<u8>, max: usize)
    requires
        max >= 1,
    ensures
        final(acc)@.map_values(|v: Vec<u8>| v@) == old(acc)@.map_values(|v: Vec<u8>| v@)
            + enveloppe(ligne@, max as int),
    decreases ligne@.len(),
{
    let ghost gligne = ligne@;
    if ligne.len() <= max {
        acc.push(ligne);
        proof {
            assert(final(acc)@.map_values(|v: Vec<u8>| v@) =~= old(acc)@.map_values(
                |v: Vec<u8>| v@,
            ) + enveloppe(gligne, max as int));
        }
        return ;
    }
    let de = cherche_derniere_espace(&ligne, max);
    proof {
        assert(ligne@.subrange(0, max as int) =~= ligne@.take(max as int));
        lemma_derniere_espace_bornes(ligne@.take(max as int));
    }
    let coupe = if de >= max {
        max
    } else {
        de
    };
    let morceau = copie_tranche(&ligne, 0, coupe);
    proof {
        assert(morceau@ =~= gligne.take(coupe as int));
    }
    let ghost acc0 = acc@.map_values(|v: Vec<u8>| v@);
    acc.push(morceau);
    proof {
        assert(acc@.map_values(|v: Vec<u8>| v@) =~= acc0.push(gligne.take(coupe as int)));
    }
    let mut su: usize = coupe;
    while su < ligne.len() && (ligne[su] == 32 || ligne[su] == 9)
        invariant
            coupe <= su <= gligne.len(),
            ligne@ == gligne,
            saute_blancs(gligne.skip(coupe as int)) == saute_blancs(gligne.skip(su as int)),
        decreases gligne.len() - su,
    {
        proof {
            assert(gligne.skip(su as int)[0] == gligne[su as int]);
            assert(gligne.skip(su as int).drop_first() =~= gligne.skip(su as int + 1));
        }
        su = su + 1;
    }
    proof {
        if su < gligne.len() {
            assert(gligne.skip(su as int)[0] == gligne[su as int]);
        }
        assert(saute_blancs(gligne.skip(su as int)) =~= gligne.skip(su as int));
    }
    let reste = copie_tranche(&ligne, su, ligne.len());
    proof {
        assert(reste@ =~= saute_blancs(gligne.skip(coupe as int)));
        lemma_saute_blancs_len(gligne.skip(coupe as int));
        if coupe == 0 {
            assert(gligne.take(max as int)[0] == 32);
            assert(gligne.skip(0) =~= gligne);
            assert(gligne.take(max as int)[0] == gligne[0]);
        }
    }
    enveloppe_dans(acc, reste, max);
    proof {
        assert(final(acc)@.map_values(|v: Vec<u8>| v@) =~= old(acc)@.map_values(|v: Vec<u8>| v@)
            + enveloppe(gligne, max as int));
    }
}

/// Decoupe un texte en lignes d'au plus `max_chars` octets : coupe aux
/// sauts de ligne, puis a la derniere espace avant la limite, sinon en
/// pleine largeur. Une ligne vide reste une ligne vide.
#[verifier::loop_isolation(false)]
pub fn decouper_texte(texte: &Vec<u8>, max_chars: usize) -> (r: Vec<Vec<u8>>)
    requires
        max_chars >= 1,
    ensures
        r@.map_values(|v: Vec<u8>| v@) == decoupe_lignes(texte@, max_chars as int),
{
    let mut sortie: Vec<Vec<u8>> = Vec::new();
    lignes_dans(&mut sortie, texte, 0, max_chars);
    proof {
        assert(texte@.skip(0) =~= texte@);
        assert(Seq::<Vec<u8>>::empty().map_values(|v: Vec<u8>| v@) =~= Seq::<Seq<u8>>::empty());
        assert(sortie@.map_values(|v: Vec<u8>| v@) =~= decoupe_lignes(texte@, max_chars as int));
    }
    sortie
}

/// Verse dans `acc` la decoupe du texte a partir de `debut`.
#[verifier::loop_isolation(false)]
fn lignes_dans(acc: &mut Vec<Vec<u8>>, texte: &Vec<u8>, debut: usize, max: usize)
    requires
        max >= 1,
        debut <= texte@.len(),
    ensures
        final(acc)@.map_values(|v: Vec<u8>| v@) == old(acc)@.map_values(|v: Vec<u8>| v@)
            + decoupe_lignes(texte@.skip(debut as int), max as int),
    decreases texte@.len() - debut,
{
    let ghost reste = texte@.skip(debut as int);
    if debut >= texte.len() {
        proof {
            assert(reste.len() == 0);
            assert(lignes_de(reste) =~= Seq::<Seq<u8>>::empty());
            assert(lignes_de(reste).map_values(|l: Seq<u8>| enveloppe(l, max as int)) =~= Seq::<
                Seq<Seq<u8>>,
            >::empty());
            lemma_flatten_triple_vide();
            assert(decoupe_lignes(reste, max as int) =~= Seq::<Seq<u8>>::empty());
            assert(final(acc)@.map_values(|v: Vec<u8>| v@) =~= old(acc)@.map_values(
                |v: Vec<u8>| v@,
            ) + decoupe_lignes(reste, max as int));
        }
        return ;
    }
    let p = cherche_octet(texte, debut, 10);
    proof {
        lemma_premiere_bornes(reste, 10);
    }
    let mut ligne = copie_tranche(texte, debut, p);
    proof {
        if p < texte@.len() {
            assert(ligne@ =~= reste.take(premiere(reste, 10)));
        } else {
            assert(ligne@ =~= reste);
        }
    }
    if ligne.len() > 0 && ligne[ligne.len() - 1] == 13 {
        let _ = ligne.pop();
    }
    let ghost gligne = ligne@;
    proof {
        if p < texte@.len() {
            assert(gligne =~= sans_cr(reste.take(premiere(reste, 10))));
        } else {
            assert(gligne =~= sans_cr(reste));
        }
    }
    let ghost acc0 = acc@.map_values(|v: Vec<u8>| v@);
    enveloppe_dans(acc, ligne, max);
    if p >= texte.len() {
        proof {
            assert(lignes_de(reste) =~= seq![sans_cr(reste)]);
            let ll = lignes_de(reste).map_values(|l: Seq<u8>| enveloppe(l, max as int));
            assert(ll =~= seq![enveloppe(gligne, max as int)]);
            assert(ll.drop_first() =~= Seq::<Seq<Seq<u8>>>::empty());
            lemma_flatten_triple_vide();
            assert(ll.drop_first().flatten() =~= Seq::<Seq<u8>>::empty());
            assert(ll.flatten() == ll[0] + ll.drop_first().flatten());
            assert(ll.flatten() =~= enveloppe(gligne, max as int));
            assert(final(acc)@.map_values(|v: Vec<u8>| v@) =~= acc0 + decoupe_lignes(
                reste,
                max as int,
            ));
        }
        return ;
    }
    lignes_dans(acc, texte, p + 1, max);
    proof {
        assert(reste.skip(premiere(reste, 10) + 1) =~= texte@.skip(p as int + 1));
        assert(lignes_de(reste) =~= seq![gligne] + lignes_de(texte@.skip(p as int + 1)));
        let ll = lignes_de(reste).map_values(|l: Seq<u8>| enveloppe(l, max as int));
        let suite = lignes_de(texte@.skip(p as int + 1)).map_values(
            |l: Seq<u8>| enveloppe(l, max as int),
        );
        assert(ll[0] == enveloppe(gligne, max as int));
        assert(ll.drop_first() =~= suite);
        assert(ll.flatten() == enveloppe(gligne, max as int) + suite.flatten());
        assert(final(acc)@.map_values(|v: Vec<u8>| v@) =~= acc0 + decoupe_lignes(
            reste,
            max as int,
        ));
    }
}

proof fn lemma_flatten_triple_vide()
    ensures
        forall|s: Seq<Seq<Seq<u8>>>| s.len() == 0 ==> (#[trigger] s.flatten()) =~= Seq::<
            Seq<u8>,
        >::empty(),
{
    assert forall|s: Seq<Seq<Seq<u8>>>| s.len() == 0 implies (#[trigger] s.flatten()) =~= Seq::<
        Seq<u8>,
    >::empty() by {
        assert(s =~= Seq::<Seq<Seq<u8>>>::empty());
    }
}

proof fn lemma_flatten_vide()
    ensures
        forall|s: Seq<Seq<u8>>| s.len() == 0 ==> (#[trigger] s.flatten()) =~= Seq::<u8>::empty(),
{
    assert forall|s: Seq<Seq<u8>>| s.len() == 0 implies (#[trigger] s.flatten()) =~= Seq::<
        u8,
    >::empty() by {
        assert(s =~= Seq::<Seq<u8>>::empty());
    }
}

} // verus!

verus! {

/// Les octets d'un litteral ASCII, en vecteur.
pub fn octets_de(s: &str) -> (r: Vec<u8>)
    requires
        vstd::utf8::is_ascii_chars(s@),
    ensures
        r@ == octets_ascii(s@),
{
    let mut v: Vec<u8> = Vec::new();
    pousse_litteral(&mut v, s);
    proof {
        assert(v@ =~= octets_ascii(s@));
    }
    v
}

/// Combien d'octets de continuation UTF-8 (au plus `k`) suivent la tete.
pub open spec fn continuations(s: Seq<u8>, k: int) -> int {
    if k >= 1 && s.len() >= 2 && 0x80 <= s[1] < 0xC0 {
        if k >= 2 && s.len() >= 3 && 0x80 <= s[2] < 0xC0 {
            if k >= 3 && s.len() >= 4 && 0x80 <= s[3] < 0xC0 {
                3
            } else {
                2
            }
        } else {
            1
        }
    } else {
        0
    }
}

/// La longueur de la sequence UTF-8 qui commence `s` : sa tete et ses
/// octets de continuation effectivement presents.
pub open spec fn longueur_sequence(s: Seq<u8>) -> int {
    if s.len() == 0 {
        0
    } else {
        let attendu: int = if s[0] < 0xC0 {
            0
        } else if s[0] < 0xE0 {
            1
        } else if s[0] < 0xF0 {
            2
        } else if s[0] < 0xF8 {
            3
        } else {
            0
        };
        1 + continuations(s, attendu)
    }
}

/// L'octet WinAnsi d'une sequence a deux tetes connues, ou 0 si hors table.
pub open spec fn winansi_double(a: u8, b: u8) -> u8 {
    if a == 0xC6 && b == 0x92 {
        0x83
    } else if a == 0xC5 && b == 0xA0 {
        0x8A
    } else if a == 0xC5 && b == 0x92 {
        0x8C
    } else if a == 0xC5 && b == 0xBD {
        0x8E
    } else if a == 0xC5 && b == 0xA1 {
        0x9A
    } else if a == 0xC5 && b == 0x93 {
        0x9C
    } else if a == 0xC5 && b == 0xBE {
        0x9E
    } else if a == 0xC5 && b == 0xB8 {
        0x9F
    } else if a == 0xCB && b == 0x86 {
        0x88
    } else if a == 0xCB && b == 0x9C {
        0x98
    } else {
        0
    }
}

/// L'octet WinAnsi d'une sequence a trois octets commencant par 0xE2, ou 0.
pub open spec fn winansi_triple(b: u8, c: u8) -> u8 {
    if b == 0x82 && c == 0xAC {
        0x80
    } else if b == 0x80 && c == 0x9A {
        0x82
    } else if b == 0x80 && c == 0x9E {
        0x84
    } else if b == 0x80 && c == 0xA6 {
        0x85
    } else if b == 0x80 && c == 0xA0 {
        0x86
    } else if b == 0x80 && c == 0xA1 {
        0x87
    } else if b == 0x80 && c == 0xB0 {
        0x89
    } else if b == 0x80 && c == 0xB9 {
        0x8B
    } else if b == 0x80 && c == 0x98 {
        0x91
    } else if b == 0x80 && c == 0x99 {
        0x92
    } else if b == 0x80 && c == 0x9C {
        0x93
    } else if b == 0x80 && c == 0x9D {
        0x94
    } else if b == 0x80 && c == 0xA2 {
        0x95
    } else if b == 0x80 && c == 0x93 {
        0x96
    } else if b == 0x80 && c == 0x94 {
        0x97
    } else if b == 0x84 && c == 0xA2 {
        0x99
    } else if b == 0x80 && c == 0xBA {
        0x9B
    } else {
        0
    }
}

/// L'encodage WinAnsi d'un texte UTF-8 : l'ASCII imprimable passe tel
/// quel, la tabulation devient une espace, les lettres latines accentuees
/// et la ponctuation typographique prennent leur code WinAnsi, tout le
/// reste devient un point d'interrogation. Deterministe et avec perte.
pub open spec fn winansi(s: Seq<u8>) -> Seq<u8>
    decreases s.len(),
    via winansi_decroit
{
    if s.len() == 0 {
        s
    } else {
        let b = s[0];
        if 0x20 <= b <= 0x7E {
            seq![b] + winansi(s.drop_first())
        } else if b == 9 {
            seq![32u8] + winansi(s.drop_first())
        } else if b == 0xC3 && s.len() >= 2 && 0x80 <= s[1] < 0xC0 {
            seq![(0xC0 + (s[1] - 0x80)) as u8] + winansi(s.skip(2))
        } else if (b == 0xC5 || b == 0xC6 || b == 0xCB) && s.len() >= 2 && 0x80 <= s[1] < 0xC0
            && winansi_double(b, s[1]) != 0 {
            seq![winansi_double(b, s[1])] + winansi(s.skip(2))
        } else if b == 0xE2 && s.len() >= 3 && 0x80 <= s[1] < 0xC0 && 0x80 <= s[2] < 0xC0
            && winansi_triple(s[1], s[2]) != 0 {
            seq![winansi_triple(s[1], s[2])] + winansi(s.skip(3))
        } else {
            seq![63u8] + winansi(s.skip(longueur_sequence(s)))
        }
    }
}

#[via_fn]
proof fn winansi_decroit(s: Seq<u8>) {
    if s.len() > 0 {
        assert(1 <= longueur_sequence(s) <= 4);
    }
}

/// Encode un texte UTF-8 en octets WinAnsi, l'irrepresentable remplace.
#[verifier::loop_isolation(false)]
pub fn encoder_winansi(texte: &Vec<u8>) -> (r: Vec<u8>)
    ensures
        r@ == winansi(texte@),
{
    let mut sortie: Vec<u8> = Vec::new();
    proof {
        assert(texte@.skip(0) =~= texte@);
        assert(Seq::<u8>::empty() + winansi(texte@) =~= winansi(texte@));
    }
    let mut i: usize = 0;
    while i < texte.len()
        invariant
            0 <= i <= texte@.len(),
            winansi(texte@) == sortie@ + winansi(texte@.skip(i as int)),
        decreases texte@.len() - i,
    {
        let ghost reste = texte@.skip(i as int);
        proof {
            assert(reste[0] == texte@[i as int]);
            if reste.len() >= 2 {
                assert(reste[1] == texte@[i as int + 1]);
            }
            if reste.len() >= 3 {
                assert(reste[2] == texte@[i as int + 2]);
            }
            if reste.len() >= 4 {
                assert(reste[3] == texte@[i as int + 3]);
            }
            assert(reste.drop_first() =~= texte@.skip(i as int + 1));
            if reste.len() >= 2 {
                assert(reste.skip(2) =~= texte@.skip(i as int + 2));
            }
            if reste.len() >= 3 {
                assert(reste.skip(3) =~= texte@.skip(i as int + 3));
            }
            if reste.len() >= 4 {
                assert(reste.skip(4) =~= texte@.skip(i as int + 4));
            }
        }
        let b = texte[i];
        let deux = if texte.len() - i > 1 {
            texte[i + 1]
        } else {
            0
        };
        let trois = if texte.len() - i > 2 {
            texte[i + 2]
        } else {
            0
        };
        if 0x20 <= b && b <= 0x7E {
            sortie.push(b);
            i = i + 1;
        } else if b == 9 {
            sortie.push(32);
            i = i + 1;
        } else if b == 0xC3 && texte.len() - i > 1 && 0x80 <= deux && deux < 0xC0 {
            sortie.push(0xC0 + (deux - 0x80));
            i = i + 2;
        } else if (b == 0xC5 || b == 0xC6 || b == 0xCB) && texte.len() - i > 1 && 0x80 <= deux
            && deux < 0xC0 && octet_double(b, deux) != 0 {
            sortie.push(octet_double(b, deux));
            i = i + 2;
        } else if b == 0xE2 && texte.len() - i > 2 && 0x80 <= deux && deux < 0xC0 && 0x80 <= trois
            && trois < 0xC0 && octet_triple(deux, trois) != 0 {
            sortie.push(octet_triple(deux, trois));
            i = i + 3;
        } else {
            sortie.push(63);
            let attendu: usize = if b < 0xC0 {
                0
            } else if b < 0xE0 {
                1
            } else if b < 0xF0 {
                2
            } else if b < 0xF8 {
                3
            } else {
                0
            };
            let mut saut: usize = 1;
            if attendu >= 1 && texte.len() - i > 1 && 0x80 <= deux && deux < 0xC0 {
                saut = 2;
                if attendu >= 2 && texte.len() - i > 2 && 0x80 <= trois && trois < 0xC0 {
                    saut = 3;
                    if attendu >= 3 && texte.len() - i > 3 {
                        let quatre = texte[i + 3];
                        if 0x80 <= quatre && quatre < 0xC0 {
                            saut = 4;
                        }
                    }
                }
            }
            proof {
                assert(saut as int == longueur_sequence(reste));
            }
            i = i + saut;
        }
    }
    proof {
        assert(texte@.skip(texte@.len() as int).len() == 0);
        assert(sortie@ =~= winansi(texte@));
    }
    sortie
}

/// Miroir executable de `winansi_double`.
fn octet_double(a: u8, b: u8) -> (r: u8)
    ensures
        r == winansi_double(a, b),
{
    if a == 0xC6 && b == 0x92 {
        0x83
    } else if a == 0xC5 && b == 0xA0 {
        0x8A
    } else if a == 0xC5 && b == 0x92 {
        0x8C
    } else if a == 0xC5 && b == 0xBD {
        0x8E
    } else if a == 0xC5 && b == 0xA1 {
        0x9A
    } else if a == 0xC5 && b == 0x93 {
        0x9C
    } else if a == 0xC5 && b == 0xBE {
        0x9E
    } else if a == 0xC5 && b == 0xB8 {
        0x9F
    } else if a == 0xCB && b == 0x86 {
        0x88
    } else if a == 0xCB && b == 0x9C {
        0x98
    } else {
        0
    }
}

/// Miroir executable de `winansi_triple`.
fn octet_triple(b: u8, c: u8) -> (r: u8)
    ensures
        r == winansi_triple(b, c),
{
    if b == 0x82 && c == 0xAC {
        0x80
    } else if b == 0x80 && c == 0x9A {
        0x82
    } else if b == 0x80 && c == 0x9E {
        0x84
    } else if b == 0x80 && c == 0xA6 {
        0x85
    } else if b == 0x80 && c == 0xA0 {
        0x86
    } else if b == 0x80 && c == 0xA1 {
        0x87
    } else if b == 0x80 && c == 0xB0 {
        0x89
    } else if b == 0x80 && c == 0xB9 {
        0x8B
    } else if b == 0x80 && c == 0x98 {
        0x91
    } else if b == 0x80 && c == 0x99 {
        0x92
    } else if b == 0x80 && c == 0x9C {
        0x93
    } else if b == 0x80 && c == 0x9D {
        0x94
    } else if b == 0x80 && c == 0xA2 {
        0x95
    } else if b == 0x80 && c == 0x93 {
        0x96
    } else if b == 0x80 && c == 0x94 {
        0x97
    } else if b == 0x84 && c == 0xA2 {
        0x99
    } else if b == 0x80 && c == 0xBA {
        0x9B
    } else {
        0
    }
}

} // verus!

verus! {

/// Le texte hors balises : un automate a deux etats qui jette tout ce qui
/// se trouve entre `<` et `>`.
pub open spec fn retire_balises(s: Seq<u8>, dans_balise: bool) -> Seq<u8>
    decreases s.len(),
{
    if s.len() == 0 {
        s
    } else if s[0] == 60 {
        retire_balises(s.drop_first(), true)
    } else if s[0] == 62 {
        retire_balises(s.drop_first(), false)
    } else if dans_balise {
        retire_balises(s.drop_first(), true)
    } else {
        seq![s[0]] + retire_balises(s.drop_first(), false)
    }
}

/// Les six entites decodees, dans l'ordre des passes.
pub open spec fn decode_entites(s: Seq<u8>) -> Seq<u8> {
    let s1 = remplace_seq(s, octets_ascii("&amp;"@), octets_ascii("&"@));
    let s2 = remplace_seq(s1, octets_ascii("&lt;"@), octets_ascii("<"@));
    let s3 = remplace_seq(s2, octets_ascii("&gt;"@), octets_ascii(">"@));
    let s4 = remplace_seq(s3, octets_ascii("&quot;"@), octets_ascii("\""@));
    let s5 = remplace_seq(s4, octets_ascii("&#39;"@), octets_ascii("'"@));
    remplace_seq(s5, octets_ascii("&nbsp;"@), octets_ascii(" "@))
}

/// Le texte brut d'un HTML : balises retirees, entites communes decodees.
pub open spec fn texte_de_html(s: Seq<u8>) -> Seq<u8> {
    decode_entites(retire_balises(s, false))
}

/// Reduit un HTML en texte brut : retire les balises caractere par
/// caractere, puis decode les entites communes. Aucune structure de bloc
/// n'est reconstruite.
#[verifier::loop_isolation(false)]
pub fn html_vers_texte(html: &Vec<u8>) -> (r: Vec<u8>)
    ensures
        r@ == texte_de_html(html@),
{
    let mut nu: Vec<u8> = Vec::new();
    let mut dans_balise = false;
    proof {
        assert(html@.skip(0) =~= html@);
        assert(Seq::<u8>::empty() + retire_balises(html@, false) =~= retire_balises(
            html@,
            false,
        ));
    }
    let mut i: usize = 0;
    while i < html.len()
        invariant
            0 <= i <= html@.len(),
            retire_balises(html@, false) == nu@ + retire_balises(
                html@.skip(i as int),
                dans_balise,
            ),
        decreases html@.len() - i,
    {
        proof {
            assert(html@.skip(i as int)[0] == html@[i as int]);
            assert(html@.skip(i as int).drop_first() =~= html@.skip(i as int + 1));
        }
        let b = html[i];
        if b == 60 {
            dans_balise = true;
        } else if b == 62 {
            dans_balise = false;
        } else if !dans_balise {
            nu.push(b);
        }
        i = i + 1;
    }
    proof {
        assert(html@.skip(html@.len() as int).len() == 0);
        assert(nu@ =~= retire_balises(html@, false));
        reveal_strlit("&amp;");
        reveal_strlit("&lt;");
        reveal_strlit("&gt;");
        reveal_strlit("&quot;");
        reveal_strlit("&#39;");
        reveal_strlit("&nbsp;");
        reveal_strlit("&");
        reveal_strlit("<");
        reveal_strlit(">");
        reveal_strlit("\"");
        reveal_strlit("'");
        reveal_strlit(" ");
        assert("&amp;"@.len() == 5);
    }
    let s1 = remplacer(&nu, octets_de("&amp;").as_slice(), octets_de("&").as_slice());
    let s2 = remplacer(&s1, octets_de("&lt;").as_slice(), octets_de("<").as_slice());
    let s3 = remplacer(&s2, octets_de("&gt;").as_slice(), octets_de(">").as_slice());
    let s4 = remplacer(&s3, octets_de("&quot;").as_slice(), octets_de("\"").as_slice());
    let s5 = remplacer(&s4, octets_de("&#39;").as_slice(), octets_de("'").as_slice());
    let s6 = remplacer(&s5, octets_de("&nbsp;").as_slice(), octets_de(" ").as_slice());
    s6
}

/// Le corps d'une page HTML : paragraphes aux doubles sauts de ligne,
/// retours simples en `<br/>`.
pub open spec fn paragraphes(s: Seq<u8>) -> Seq<u8>
    decreases s.len(),
{
    if s.len() == 0 {
        s
    } else if s.len() >= 2 && s[0] == 10 && s[1] == 10 {
        octets_ascii("</p>\n<p>"@) + paragraphes(s.skip(2))
    } else if s[0] == 10 {
        octets_ascii("<br/>"@) + paragraphes(s.drop_first())
    } else {
        seq![s[0]] + paragraphes(s.drop_first())
    }
}

/// L'echappement HTML minimal : `&`, `<`, `>`.
pub open spec fn echappe_html(s: Seq<u8>) -> Seq<u8> {
    let s1 = remplace_seq(s, octets_ascii("&"@), octets_ascii("&amp;"@));
    let s2 = remplace_seq(s1, octets_ascii("<"@), octets_ascii("&lt;"@));
    remplace_seq(s2, octets_ascii(">"@), octets_ascii("&gt;"@))
}

/// La page HTML complete d'un texte brut.
pub open spec fn page_html(s: Seq<u8>) -> Seq<u8> {
    octets_ascii("<!DOCTYPE html>\n<html><body>\n<p>"@) + paragraphes(echappe_html(s))
        + octets_ascii("</p>\n</body></html>"@)
}

/// Habille un texte brut en page HTML : caracteres speciaux echappes, un
/// paragraphe par bloc separe d'une ligne vide, retours simples en `<br/>`.
#[verifier::loop_isolation(false)]
pub fn texte_vers_html(texte: &Vec<u8>) -> (r: Vec<u8>)
    ensures
        r@ == page_html(texte@),
{
    proof {
        reveal_strlit("&amp;");
        reveal_strlit("&lt;");
        reveal_strlit("&gt;");
        reveal_strlit("&");
        reveal_strlit("<");
        reveal_strlit(">");
    }
    let s1 = remplacer(texte, octets_de("&").as_slice(), octets_de("&amp;").as_slice());
    let s2 = remplacer(&s1, octets_de("<").as_slice(), octets_de("&lt;").as_slice());
    let corps = remplacer(&s2, octets_de(">").as_slice(), octets_de("&gt;").as_slice());
    let mut sortie: Vec<u8> = Vec::new();
    proof {
        reveal_strlit("<!DOCTYPE html>\n<html><body>\n<p>");
        reveal_strlit("</p>\n</body></html>");
        reveal_strlit("</p>\n<p>");
        reveal_strlit("<br/>");
    }
    pousse_litteral(&mut sortie, "<!DOCTYPE html>\n<html><body>\n<p>");
    let ghost prefixe = sortie@;
    proof {
        assert(corps@.skip(0) =~= corps@);
        assert(prefixe + Seq::<u8>::empty() =~= prefixe);
    }
    let mut i: usize = 0;
    while i < corps.len()
        invariant
            0 <= i <= corps@.len(),
            prefixe + paragraphes(corps@) == sortie@ + paragraphes(corps@.skip(i as int)),
        decreases corps@.len() - i,
    {
        let ghost reste = corps@.skip(i as int);
        proof {
            assert(reste[0] == corps@[i as int]);
            if reste.len() >= 2 {
                assert(reste[1] == corps@[i as int + 1]);
                assert(reste.skip(2) =~= corps@.skip(i as int + 2));
            }
            assert(reste.drop_first() =~= corps@.skip(i as int + 1));
        }
        let b = corps[i];
        if b == 10 && corps.len() - i > 1 && corps[i + 1] == 10 {
            pousse_litteral(&mut sortie, "</p>\n<p>");
            i = i + 2;
        } else if b == 10 {
            pousse_litteral(&mut sortie, "<br/>");
            i = i + 1;
        } else {
            sortie.push(b);
            i = i + 1;
        }
    }
    proof {
        assert(corps@.skip(corps@.len() as int).len() == 0);
        assert(sortie@ =~= prefixe + paragraphes(corps@));
    }
    pousse_litteral(&mut sortie, "</p>\n</body></html>");
    proof {
        assert(sortie@ =~= page_html(texte@));
    }
    sortie
}

} // verus!

verus! {

/// Les lignes d'un texte, telles quelles.
#[verifier::loop_isolation(false)]
pub fn lignes_exec(texte: &Vec<u8>) -> (r: Vec<Vec<u8>>)
    ensures
        r@.map_values(|v: Vec<u8>| v@) == lignes_de(texte@),
{
    let mut sortie: Vec<Vec<u8>> = Vec::new();
    brutes_dans(&mut sortie, texte, 0);
    proof {
        assert(texte@.skip(0) =~= texte@);
        assert(sortie@.map_values(|v: Vec<u8>| v@) =~= lignes_de(texte@));
    }
    sortie
}

/// Verse dans `acc` les lignes du texte a partir de `debut`.
#[verifier::loop_isolation(false)]
fn brutes_dans(acc: &mut Vec<Vec<u8>>, texte: &Vec<u8>, debut: usize)
    requires
        debut <= texte@.len(),
    ensures
        final(acc)@.map_values(|v: Vec<u8>| v@) == old(acc)@.map_values(|v: Vec<u8>| v@)
            + lignes_de(texte@.skip(debut as int)),
    decreases texte@.len() - debut,
{
    let ghost reste = texte@.skip(debut as int);
    if debut >= texte.len() {
        proof {
            assert(reste.len() == 0);
            assert(lignes_de(reste) =~= Seq::<Seq<u8>>::empty());
            assert(final(acc)@.map_values(|v: Vec<u8>| v@) =~= old(acc)@.map_values(
                |v: Vec<u8>| v@,
            ) + lignes_de(reste));
        }
        return ;
    }
    let p = cherche_octet(texte, debut, 10);
    proof {
        lemma_premiere_bornes(reste, 10);
    }
    let mut ligne = copie_tranche(texte, debut, p);
    proof {
        if p < texte@.len() {
            assert(ligne@ =~= reste.take(premiere(reste, 10)));
        } else {
            assert(ligne@ =~= reste);
        }
    }
    if ligne.len() > 0 && ligne[ligne.len() - 1] == 13 {
        let _ = ligne.pop();
    }
    let ghost gligne = ligne@;
    proof {
        if p < texte@.len() {
            assert(gligne =~= sans_cr(reste.take(premiere(reste, 10))));
        } else {
            assert(gligne =~= sans_cr(reste));
        }
    }
    let ghost acc0 = acc@.map_values(|v: Vec<u8>| v@);
    acc.push(ligne);
    proof {
        assert(acc@.map_values(|v: Vec<u8>| v@) =~= acc0.push(gligne));
    }
    if p >= texte.len() {
        proof {
            assert(lignes_de(reste) =~= seq![gligne]);
            assert(final(acc)@.map_values(|v: Vec<u8>| v@) =~= acc0 + lignes_de(reste));
        }
        return ;
    }
    brutes_dans(acc, texte, p + 1);
    proof {
        assert(reste.skip(premiere(reste, 10) + 1) =~= texte@.skip(p as int + 1));
        assert(lignes_de(reste) =~= seq![gligne] + lignes_de(texte@.skip(p as int + 1)));
        assert(final(acc)@.map_values(|v: Vec<u8>| v@) =~= acc0 + lignes_de(reste));
    }
}

} // verus!
