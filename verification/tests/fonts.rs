use ascii_world::charset::{
    density_sort, resolve, resolve_with, Charset, ResolveError, BRAILLE_BLANK, BRAILLE_FULL,
    LANGUAGES, NAMED, SIMPLE,
};
use ascii_world::engine::{convert, AsciiGrid, Options};
use ascii_world::float::Single;
use ascii_world::font::FontStack;
use ascii_world::paint::{
    content_bounds, crop_to, is_braille, paint_canvas, paint_png, Background, Bounds, PaintError,
    PaintOptions,
};
use ascii_world::pixels::RgbaImage;

/// A subset of a monospace font (printable ASCII and block elements), in Base64.
const MONO: &str = "\
    AAEAAAAHABAAAAAAY21hcAAAAAAAAAB8AAAATGdseWYAAAAAAAAAyAAAHxhoZWFkAAAAAAAAH+AAAAA2aGhlYQAAAAAA\
    ACAYAAAAJGhtdHgAAAAAAAAgPAAAAZBsb2NhAAAAAAAAIcwAAAGUbWF4cAAAAAAAACNgAAAAIAAAAAEAAwABAAAADAAE\
    AEAAAAAMAAAAAAAAAH4liCWRJZIlk///AAAAICWIJZElkiWT////4drY2tLa0NrOAAEAAAAAAAAAAAAAAAAAAgBo/pYE\
    aAWkAAMABwAAExEhESUhESFoBAD8cwMb/OX+lgcO+PJyBikAAAACAeMAAALuBdUAAwAJAAABIREhESERAyMDAeMBC/71\
    AQshxyMBG/7lBdX9cf6bAWUAAAAAAgDnA6oD5wXVAAMABwAAAREhESERIRED5/8A/wD/AAXV/dUCK/3VAisAAAACAAIA\
    AATNBb4AGwAfAAABAzMTMwMzFSMDMxUhAyMTIwMjEyM1IRMjNSETASMDMwLDX8te4GHB9krN/v5e3V7NXt1ezwEEStsB\
    El4BFc1KzQW+/ooBdv6K1/7b1/6LAXX+iwF11wEl1wF2/bP+2wAAAAAAAAMApP7TBEQGFAAGAA0ALwAAARE+ATU0JgMR\
    DgEVFBYTIwMuAScRHgEXES4BNTQ2NzUzFx4BFxEuAScRHgEVFAYHArY/RkXNPj8/y40BV75nZ8FVxcDMuY0BR5lQPphb\
    xcnZtAIQ/tIJTz0+TwEtARsIQzo5TPuRAS0DLisBBj1CAQFJJ7+dp8YM7e0EHBn/ACgwBv7NH8+spNIJAAUAIQAABMMF\
    mAALABcAGwAnADMAABM0NjMyFhUUBiMiJgEiBhUUFjMyNjU0JgkBFwEFNDYzMhYVFAYjIiYBIgYVFBYzMjY1NCYhuoWF\
    u7uFhboBPzlQUDk6T1D+vQQSKfvoAcu5hoS8vISGuQE9OE9OOTpRUgRYhrq7hYW6uQEPTzo6T086OVD9UAGiYP5ekoa6\
    u4WEu7kBEFA6Ok9QOTlRAAAAAgAl/+ME0wXwACoAOAAAJQ4BIyIANTQ2Ny4BNTQ2MzIWFxEuASMiBhUUFhcBPgE1NCYn\
    MxUUBgcXIQEOARUUFjMyNjc2NzY3A2ZLqVfg/uqNizIw2s5JjERAg0FQUj1EATkVFgQE60RJov7D/iJCQ51yHDscAgYd\
    EkgyMwEG0ZHuWE6FPKKuFhX/ACQlODYkfmb+ICZiOR45GTOR2Vb2Atsrd0l6pw0MAQMODAAAAAABAecDqgLnBdUAAwAA\
    AREhEQLn/wAF1f3VAisAAAAAAAEBf/7yA5wGEgANAAABBgIVFBIXIyYCNTQSNwOchICAhOSfmpueBhLv/kDg3v498OcB\
    wenoAcPkAAAAAAEBNf7yA1IGEgANAAABMxYSFRQCByM2EjU0AgE15J6bmp/khICABhLk/j3o6f4/5/ABw97gAcAAAAAA\
    AAEAeQI5BFQF8AARAAABDQEHJREjEQUnLQE3BREzESUEVP62AUpM/rSs/rVMAUz+tEwBS6wBTATBra6NuP6oAVi4ja6t\
    jbYBWP6otgAAAAAAAQBCAFwEjQSoAAsAAAERIRUhESMRITUhEQLfAa7+Uu3+UAGwBKj+Uu7+UAGw7gGuAAAAAAEBav7h\
    AwYBbwAFAAABIREDIxMBzQE5xNhjAW/+8f6BAX8AAAAAAAABAS0BvAOkAt8AAwAAASERIQEtAnf9iQLf/t0AAQHBAAAD\
    DgFvAAMAAAEhESEBwQFN/rMBb/6RAAEAcf9CBGAF1QADAAABMwEjA4Pd/O7dBdX5bQAAAAAAAwB7/+MEVgXwAAsAFwAj\
    AAABNDYzMhYVFAYjIiYTIgYREBYzMjYRECYBEBIzMhIREAIjIgIB7Eg0NUhINTRIfGZeXmZnXl79rPb3+Pb2+Pf2Auk1\
    SEg1NEhHAkL6/u3+7vr6ARIBE/r98wGEAYP+fv57/nz+fgGDAAAAAAEAvAAABG8F1QAKAAATIREFESUhESERIbwBSv7N\
    ATUBHQFK/E0BBAPJTAEKSvsv/vwAAAABAHMAAAQnBfAAHQAAASERITU3ADc+ATU0JiMiBgcRPgEzMgQVFAYHBgcGAbIC\
    dfxMoAEdPUtCeW9PxWtrzV7tAQ87SDXugQEE/vz8qgEvRlaFQWRtPzwBEycp3b9Yml5E7oEAAAAAAAEAff/jBEwF8AAo\
    AAABIxEzMjY1NCYjIgYHET4BMzIEFRQGBx4BFRQEISImJxEeATMyNjU0JgIlnp5ueXluVMBnZ8hc7AEImI2gqP7q/vdx\
    22Re2nh4jIwCnAEEV09TXSooAQwfIc61hakaHMei2eQmJAESLzFvXnN9AAAAAAAAAgBmAAAEdQXVAAIADQAACQEhAyER\
    MxUjESERIRECtv6HAXkaATWkpP7l/bAEjf2yA5b8av3+vgFCAR4AAAAAAAEAj//jBEYF1QAdAAATIREhET4BMzIAFRQA\
    ISImJxEeATMyNjU0JiMiBgfBAyv9xCRSLt4BFP7V/v5gxGZTr1icoqGGT59RBdX+/P7rDg3+6ODr/u8gIAEKKSmFf3WN\
    JycAAAACAIP/4QRiBe4ACwAkAAABIgYVFBYzMjY1NCYBES4BIyIGBz4BMzIWFRQCIyACERAAITIWAoNgZWVgYGdnASNP\
    kUOgpwQvkmPK3Pfg/u/3AS4BLkaVAuyLhIOLi4ODjALG/vQtLdfSQUH/6vv+7AFuAZgBhAGDHgAAAAAAAQCHAAAENwXV\
    AAYAABMhFQEhASGHA7D+Bv7TAeb9kQXV0fr8BNEAAAMAgf/jBFAF8AALACMALwAAASIGFRQWMzI2NTQmJS4BNTQ2MzIW\
    FRQGBx4BFRQGIyImNTQ2ExQWMzI2NTQmIyIGAmhjenpjY3t6/sFxdvLQ0fJ0b3yM/urp/o6dZVdYZWVYVmYCmn1nZ36A\
    ZWd9fSenebrY2Lp4pygmxInX6urXisQBVFhnZ1hXZWYAAgBv/9kETgXjABgAJAAANxEeATMyNjcOASMiAjU0EjMgEhEQ\
    ACEiJgEyNjU0JiMiBhUUFstPkUOfpwUvkmTJ3PbhARH3/tL+0kaVATdfZWVfYGdnFAENLizV1EFBAP/q+gES/pP+af59\
    /n0eAu6LhIOLi4ODjAAAAAAAAAIBwQAAAw4EJwADAAcAAAEhESERIREhAcEBTf6zAU3+swQn/pP+tf6RAAAAAgFz/uED\
    DgQnAAUACQAAASERAyMTESERIQHBAU3E104BTf6zAW/+8f6BAX8Dx/6TAAAAAAEAWABtBHkEmAAGAAAJAhUBNQEEefzl\
    Axv73wQhA57+4/7l+QGf7AGgAAAAAAAAAAIAWAEnBHkD2wADAAcAABMhFSERIRUhWAQh+98EIfvfAhTtArTrAAABAFgA\
    bQR5BJgABgAAEzUBFQE1AVgEIfvfAxsDnvr+YOz+YfkBGwAAAAAAAAIA6QAABCkF8AADACQAAAEhESEBITU0Nj8BPgE1\
    NCYjIgYHET4BMzIWFRQGDwEOARUUBgcBuAEL/vUBC/71PlBaPy1cXFS3YGLJZcrmRF5YRCYBAQEb/uUBkZpjjE5ZPVAr\
    Q0RHRgEMODm8pUyDXFZCVD0JGA4AAAIABv7BBIcFcwALADQAAAE0JiMiBhUUFjMyNhMjNQ4BIyImNTQ2MzIWFzU0JiMi\
    ABEQADMyNjcXDgEjIAAREAAhMhIVA81mWVllZVlZZrrEJmdIpMnIpUdsIpWK0P75ATD9UJZFXFG/bf6i/mABdgE02v0C\
    IXGAgHFygID+2FI1MezCwesxLymIlP6S/tv+zf6VLy+wNzcB0gGMAYMB0f754wAAAgAhAAAEsAXVAAIACgAAAQMhASEB\
    IQMhAyECaIsBF/7AAWkBk/7ZXP51Wv7ZBMf9nQNx+isBcf6PAAAAAwB9AAAEhwXXAAgAEQAgAAABETMyNjU0JiMDETMy\
    NjU0JiMlITIWFRQGBx4BFRQEKQEBmsSNcXaIxMRwX2Fu/h8B4fn7lI+rrf78/tv+HwKm/kZgd3lqAkb+pVBcXFPrvbyQ\
    og0RxLDYwgAAAAAAAAEAmP/jBDkF8AAZAAAlDgEjIAAREAAhMhYXES4BIyICFRQSMzI2NwQ5RppV/tL+wgE+AS5VnERM\
    j0yipaWiTI9MKyQkAY4BeAF5AY4kJP64RkH+//38/v9BRgAAAAAAAAIAiQAABHUF1QAIABEAAAERMzI2ERAmIwEhIAAR\
    EAApAQGwUK6UlK7+iQE8AW4BQv6+/pL+xATL/D/bAQcBBdoBCv6j/nT+c/6hAAABAKgAAARKBdUACwAAKQERIREhESER\
    IREhBEr8XgOi/YUCP/3BAnsF1f78/r7+/P55AAAAAQC2AAAEWAXVAAkAAAEhESERIREhESEEWP2FAkL9vv7ZA6IE0f6+\
    /vz9dQXVAAAAAQB1/+MEagXwAB0AAAERIzUhEQ4BIyAAERAAITIWFxEuASMiBhEUEjMyNgNoygHMVc11/t7+xAE/AS1a\
    rkw+oWCopqCZLkQBDgEd+P1USUsBkwFzAXkBjjMw/rlQUf3+//n+/BEAAAAAAAAAAQCJAAAESAXVAAsAABMhESERIREh\
    ESERIYkBJwFxASf+2f6P/tkF1f3HAjn6KwKY/WgAAAAAAAABAKwAAAQlBdUACwAAExEhESERIREhESERrAN5/tcBKfyH\
    ASkE0QEE/vz8M/78AQQDzQAAAAAAAAEAbf/jA/AF1QARAAA3ER4BMzI2NREhESEREAYhIiZtVsNjdGz+lwKQ5f75X89K\
    AVZYXHR/AvIBBPwK/u/rNAAAAAAAAQB1AAAEyQXVAAsAABMhEQEhCQEhAQcRIXUBJwHOAU7+KQHo/rj+noP+2QXV/bIC\
    Tv20/HcCoKb+BgAAAQDhAAAEfwXVAAUAADMRIREhEeEBJwJ3BdX7L/78AAABAFYAAAR7BdUADAAAEyEbASERIxEDIwMR\
    I1YBYLKxAWL+nuug/gXV/XECj/orBKz9cwKN+1QAAAEAdwAABFgF1QAJAAATIQERIREhAREhdwE9AaABBP7F/l7+/AXV\
    +8MEPforBD37wwAAAAACAFz/4wR1BfAACwAXAAABIgYREBYzMjYRECYBEAAhIAAREAAhIAACaHFoaHFyaGj9ggEJAQMB\
    BAEJ/vf+/P79/vcE5/H+8/708fEBDAEN8f4CAX8BiP54/oH+gv54AYgAAAAAAgCiAAAEewXVAAgAEwAAAREzMjY1NCYj\
    JSEgBBUUBCEjESEByXmRdXWR/mABlQE1AQ/+8f7Lbv7ZBN3+SmJ5eWL43Pf33P3RAAAAAAIAXP7nBHUF8AARAB0AAAUO\
    ASMgABEQACEgABEQAgcXBwEiBhEQFjMyNhEQJgKQDhMJ/v/+9wEJAQMBBAEJfni6yv75cWhocXJoaBcDAwGIAX4BfwGI\
    /nj+gf75/p1MtpYGAPH+8/708fEBDAEN8QACAIUAAATRBdUAFAAdAAABHgEXASEDJicmKwERIREhIBYVFAYBETMyNjU0\
    JiMDJyxBLwEO/ry0CA1Pa17+2QGqASD7lv34i3lpaHoCwQlBXv3nAXkQHKn9sgXVzOaatgIK/mlfbW1eAAAAAAABAIH/\
    4wRWBfAAJwAAAS4BNTQkMzIWFxEuASMiBhUUFh8BHgEVFAQhIiYnER4BMzI2NTQmJwH+354BBONnzmVfxGBrclOEf7Sq\
    /vX+8m/faHbdbG14UEwCj1W7nsvoLy7+4ENGVlA+UTEwQtqm4t81NAExVFJjWUNlHQAAAQBaAAAEdwXVAAcAACkBESER\
    IREhAvz+2f6FBB3+hQTTAQL+/gAAAAEAav/jBGYF1QARAAATESERFBYzMjY1ESEREAIhIAJqASdyZWVyASfy/vT+9fMC\
    JwOu/Ahwf39wA/j8Uv7Q/uwBFAAAAAAAAAEAOQAABJgF1QAGAAAlASEBIQEhAmgBBwEp/p3+Z/6dASn2BN/6KwXVAAAA\
    AQAAAAAE0QXVAAwAABEhGwEzGwEhAyELASEBAmuB9ZZUAQSs/u2qn/7vBdX7uALF/TsESPorAxD88AAAAQAbAAAEtgXV\
    AAsAACkBCQEhCQEhCQEhAQS2/s/+4/7k/s8Btv5WATEBEAERATH+WAHu/hIC9gLf/iUB2/0hAAEACAAABMkF1QAIAAAT\
    IQkBIQERIREIAT4BIgEjAT7+M/7ZBdX9qAJY/Hf9tAJMAAAAAAABAHMAAASJBdUACQAAEyEVASERITUBIYkD8v1MAsL7\
    6gKf/XcF1fT8I/789APdAAABAab+8gOiBhQABwAAASEVIxEzFSEBpgH88vL+BAYUvvpavgABAG//QgRgBdUAAwAACQEj\
    AQFOAxLf/O4F1fltBpMAAAAAAAABAS/+8gMrBhQABwAAAREhNTMRIzUDK/4E8vIGFPjevgWmvgABADkDqASYBdUABgAA\
    CQEjCQEjAQLjAbXy/sL+w/IBtQXV/dMBLf7TAi0AAAEAAP4dBNH+2wADAAABFSE1BNH7L/7bvr4AAAAAAAAAAQDHBO4C\
    /AZmAAMAAAkBIwEB4QEbxf6QBmb+iAF4AAAAAAAAAgBe/+MEVAR7AAoAJQAAASIGFRQWMzI2PQElESE1DgEjIiY1NDYh\
    MzU0JiMiBgc1PgEzIBYCvKSCWk10gAEj/t01pmS/1f4BCstnZGnFa2HIcAER3QIOVGZMWq+dFHH9gX1KUMq1xLsxR0k1\
    OvooJt4AAAACAJb/4wR3BhQACwAcAAABNCYjIgYVFBYzMjYBPgEzMhIREAIjIiYnFSERIQNSbF9fbm5fX2z+aDaPWsfX\
    1MBlli7+3AEkAi2iuLiiori4AjZdXf7Q/uT+6P7MYmGmBhQAAAAAAQCo/+MEJQR9ABkAACUOASMgABEQACEyFhcRLgEj\
    IgYVFBYzMjY3BCVKqmL+/f7cASYBA1qnU0CZUo+amo9VlEI5KysBOAEUARUBOSos/vQ3O7aoqLQ5OgAAAAACAFr/4wQ7\
    BhQAEAAcAAABESERITUOASMiAhEQEjMyFgEUFjMyNjU0JiMiBgMXAST+3C+VZcDU18daj/6ebF9fbm5fX2wDwQJT+eym\
    YWIBNAEYARwBMF3+D6K4uKKiuLgAAAAAAgBc/+MEfQR7ABQAGwAAJQ4BIyAAERAAMzIAERUhHgEzMjY3Ay4BIyIGBwRO\
    ZtR2/uf+1wEe9/kBE/0JAZqZZcRr+AJzcGV4CzcqKgEtARsBEgE+/tn+9HeEgjo/AWl0d3txAAEArgAABDsGFAATAAAB\
    FSEVIREhESE1ITU0NjsBFSMiBgLjAVj+qP7b/vABEKjk8eVCLwTCYuH8gQN/4U7KnOEwAAAAAgBi/lgESAR9AAsAKAAA\
    ATQmIyIGFRQWMzI2ARAGISImJxEeATMyNj0BDgEjIgIREBIzMhYXNSEDI3JdXHFxXF1yASXz/u9ctF1TrFt8diuOZsDi\
    4r5glisBJQJClrW0l5i0tf6p/vPvGxwBDS4sdXx5UE4BLAEBAQoBOFpSjwAAAAAAAQCsAAAELwYUABMAAAERIRE0JiMi\
    BhURIREhET4BMzIWBC/+3UVOUFr+3QEjH5Zqn6IC1/0pAqp5aI19/X8GFP2kXWbTAAAAAgCPAAAEjQaBAAkADQAAEyER\
    IRUhNSERIQEhESHdAkQBbPwCAW3+4QEfASX+2wRg/IHh4QKeAwL+qgAAAAAAAAIAj/5YA1IGgQANABEAACUUBiMhNTMy\
    NjURITUhNSERIQNStdL+xOpiUv7XAk7+2wElK/zX4W6EA1ThywFWAAAAAAAAAQCuAAAErgYUAAsAABMhEQEhCQEhAQcR\
    Ia4BJQFgAWP+WAHA/rz+zWT+2wYU/M8Bff5e/UICDGD+VAAAAQBaAAAERgYUAA0AAAERITUhERQWOwEVISImAYP+1wJO\
    UmLq/sTRtgHTA2Dh+7+EbuHYAAAAAAABAFIAAASDBHsAIgAAAT4BMzIWGQEjETQmIyIGFREjETQmIyIGFREjETMVPgEz\
    MhYCsiFmSpFv8CYyMijtKDIyJvDVGW5ERHAD8EdEyP7E/YkCz31UVnv9MQLPe1ZUff0xBGB0Qk1RAAEArAAABC8EewAT\
    AAABESERNCYjIgYVESERIRU+ATMyFgQv/t1FTk9b/t0BIx+Wap+iAtf9KQKqemmOfv1/BGCoXWbTAAAAAAIAYv/jBG8E\
    ewALABcAAAEiBhUUFjMyNjU0JgEQADMyABEQACMiAAJoaXh4aWp4eP2QARnt7gEZ/ufu7f7nA425paW5uaWluf6iAQ8B\
    Pf7D/vH+8f7DAT0AAAAAAgCW/lYEdwR7ABAAHAAAJREhESEVPgEzMhIREAIjIiYBNCYjIgYVFBYzMjYBuv7cASQulmXA\
    1NfHWo8BYmxfX25uX19snv24BgqoYWL+zP7o/uT+0F0B8aK4uKKiuLgAAAAAAAIAWv5WBDsEewALABwAAAEUFjMyNjU0\
    JiMiBgEOASMiAhEQEjMyFhc1IREhAX9sX19ubl9fbAGYNo9ax9fUwGWVLwEk/twCMaK4uKKiuLj9y15dATABHAEYATRi\
    Yaj59gAAAAABASMAAAR/BHsAFAAAAS4BIyIGBw4BFREhESEVPgEzMhYXBH8wgU1diyYYE/7bASUrsnc8czQDKywsQT4m\
    bG79/ARgrmBpHRwAAAAAAQCs/+MEKwR7ACcAAAERLgEjIgYVFB8CHgEVFAYjIiYnER4BMzI2NTQmLwEuATU0NjMyFgPf\
    Ua9YYmTWC1SglePkZdRtYcleZ2pLjVGomurUX70EPf8ANDU5OFAyAxQmqZCtrSMjAQA3Ojw5ODwiEiaiiKK0HwAAAQBv\
    AAAEMQWeABMAAAERIRUhERQWOwEVIyImNREhNSERArIBf/6BSVXh9vyy/uIBHgWe/sLh/e5LQeGh2gIE4QE+AAABAKD/\
    4wQlBGAAEwAAExEhERQWMzI2NREhESE1DgEjIiagASVET09ZASX+2x+VaaCjAYcC2f1UeWiMfgKD+6CmXWbUAAEAUAAA\
    BIEEYAAGAAAJASEBIRsBBIH+nP6X/pwBKe/wBGD7oARg/JYDagAAAQAAAAAE0QRgAAwAABEzGwEzGwEzAyELASH0hXnt\
    d4f0y/7qiIf+6gRg/KYCNf3LA1r7oAJG/boAAAAAAQA3AAAEmgRgAAsAAAkCIQsBIQkBIRsBBHn+hwGa/qrc2/6qAZ7+\
    gwFWursEYP3o/bgBef6HAkgCGP6yAU4AAAAAAAABADv+WASYBGAADwAABQ4BKwE1MzI2PwEBIQETIQLHO6V28ndaVCsW\
    /lYBNAEA9QE0eZ6R3z1vPARB/SkC1wAAAAAAAAEAogAABDkEYAAJAAATIRUBIRUhNQEhugN//bMCTfxpAk79ygRg5f1g\
    2+UCoAAAAAEAsP6yBB0GFAAkAAAFFSMiJj0BNCYrATUzMjY9ATQ2OwEVIyIGHQEUBgceAR0BFBYzBB2W+alrjD4+jGup\
    +ZZ7aEZifn5iRmiPv5Td15dzv3KY192TvlSP0aWGExWIpM2QVQAAAAAAAQH2/h0C2QYdAAMAAAERIxEC2eMGHfgACAAA\
    AAEAtP6yBCEGFAAkAAAXMzI2PQE0NjcuAT0BNCYrATUzMhYdARQWOwEVIyIGHQEUBisBtHloSGJ9fmFHaXmW+KdtjT4+\
    jW2n+JaPVo/NpIgVE4al0Y1WvpPd15dzv3SW192UAAABAFgBzwR5AysAGwAAARUOASMiJyYnLgEjIgYHNT4BMzIWFxYX\
    FjMyNgR5S49PWnEWC01nM06NSk6SUzVkSgsWdF1GigMr6Tw3MwoEIhg6P+U9NhYfBQo3PQAAAAAAAAAB/+z+AATlB4EA\
    AwAAAxEhERQE+f4ACYH2fwAACgAA/hQE0QdtAAMABwALAA8AEwAXABsAHwAjAEEAAAEzNSMBMzUjBTM1IwEzNSMBMzUj\
    BTM1IwEzNSMBMzUjBTM1IwMhESM1IxUhNSMVIREzNSMRMzUjETM1IxEzNSEVMwJompr+zJqaAmibm/7Mmpr+zJqaAmib\
    m/7Mmpr+zJqaAmibm5oBz5qb/jKa/syZmZmZmZmZAc+aBCPd/e3e3t7969797d3d3f3s3QUz3d3dATb2p93d3d0BNt0B\
    j94Bj90BkN3dAAAeAAD+FATRB2wAAwAHAAsADwATABcAGwAfACMAJwArAC8AMwA3ADsAPwBDAEcASwBPAFMAVwBbAF8A\
    YwBnAGsAbwBzAHcAAAE1MxUlNTMVAzUzHQE1MxUFNTMdATUzFQU1Mx0BNTMVATUzFSU1MxUDNTMdATUzFQU1Mx0BNTMV\
    BTUzHQE1MxUBNTMVJTUzFQM1Mx0BNTMVBTUzHQE1MxUFNTMdATUzFQE1MxUlNTMVBTUzFSU1MxUFNTMVJTUzFQQEzf5l\
    zs7Ozf5lzs3+Zc7N/ZjN/mbNzc3N/mbNzf5mzc39ltD+ZMzMzND+ZMzQ/mTM0AJozf5lzv5lzf5mzf5j0P5kzAOv8PDw\
    7+/+Ie/v7+/v7+/v8PDw7+/v7+/vBZvw8PDv7/4h7+/v7+/v7+/w8PDv7+/v7+8Fm/Dw8O/v/iHv7+/v7+/v7/Dw8O/v\
    7+/v7wd67+/v7+/v7+/v7+/v7+/v7+8AAAAQAAD+FAQ4B20AAwAHAAsADwATABcAGwAfACMAJwArAC8AMwA3ADsAPwAA\
    ATUzFSE1MxUTNTMVITUzFQE1MxUhNTMVEzUzFSE1MxUBNTMVITUzFRM1MxUhNTMVATUzFSE1MxUTNTMVITUzFQOdm/z9\
    mpqa/P2aAwOb/P2ampr8/ZoDA5v8/Zqamvz9mgMDm/z9mpqa/P2aBVrd3d3dATbd3d3d94Td3d3dATbd3d3dATfd3d3d\
    ATXe3t7eATfe3t7eATbd3d3dAAEAAAACXrjfkaqlXw889QAfCAAAAAAA4DCcVwAAAADgMJxX/G382QXbCFQAAQAIAAIA\
    AQAAAAAAAQAAB23+HQAABNH8bf74BdsAAQAAAAAAAAAAAAAAAAAAAGQE0QBoBNEAAATRAeME0QDnBNEAAgTRAKQE0QAh\
    BNEAJQTRAecE0QF/BNEBNQTRAHkE0QBCBNEBagTRAS0E0QHBBNEAcQTRAHsE0QC8BNEAcwTRAH0E0QBmBNEAjwTRAIME\
    0QCHBNEAgQTRAG8E0QHBBNEBcwTRAFgE0QBYBNEAWATRAOkE0QAGBNEAIQTRAH0E0QCYBNEAiQTRAKgE0QC2BNEAdQTR\
    AIkE0QCsBNEAbQTRAHUE0QDhBNEAVgTRAHcE0QBcBNEAogTRAFwE0QCFBNEAgQTRAFoE0QBqBNEAOQTRAAAE0QAbBNEA\
    CATRAHME0QGmBNEAbwTRAS8E0QA5BNEAAATRAMcE0QBeBNEAlgTRAKgE0QBaBNEAXATRAK4E0QBiBNEArATRAI8E0QCP\
    BNEArgTRAFoE0QBSBNEArATRAGIE0QCWBNEAWgTRASME0QCsBNEAbwTRAKAE0QBQBNEAAATRADcE0QA7BNEAogTRALAE\
    0QH2BNEAtATRAFgE0f/sBNEAAATRAAAE0QAAAAAAAAAAACwAAAAsAAAAYAAAAIwAAAEAAAABnAAAAkAAAALwAAADEAAA\
    A0wAAAOIAAAD2AAABAwAAAQ0AAAEUAAABGwAAASMAAAFCAAABTwAAAWkAAAGJAAABmQAAAbIAAAHRAAAB2wAAAf4AAAI\
    dAAACKAAAAjUAAAJBAAACSwAAAlYAAAJ0AAACnQAAAqwAAALIAAAC4AAAAvMAAAMAAAADDAAAAycAAAM1AAADQwAAA1Q\
    AAANjAAADawAAA3kAAAOGAAADnwAAA7IAAAPOAAAD6QAABAgAAAQSAAAEJAAABC8AAAQ+AAAETgAABFsAAARnAAAEcAA\
    ABHkAAASCAAAEjQAABJUAAASeAAAEuwAABNQAAATrAAAFBAAABR0AAAUuAAAFTwAABWEAAAVxAAAFggAABZEAAAWfAAA\
    FuQAABcsAAAXiAAAF+wAABhQAAAYnAAAGRQAABlYAAAZnAAAGcgAABoEAAAaSAAAGowAABq8AAAbJAAAG0AAABukAAAc\
    BAAAHCAAABzoAAAeUAAAHxgAAQAAAGQCJAArAGUABgACABAAQAAIAAADrwEkAAUABA==\
";

/// A font of five full-width glyphs, in Base64.
const WIDE: &str = "\
    AAEAAAAHABAAAAAAY21hcAAAAAAAAAB8AAAATGdseWYAAAAAAAAAyAAAAMhoZWFkAAAAAAAAAZAAAAA2aGhlYQAAAAAA\
    AAHIAAAAJGhtdHgAAAAAAAAB7AAAABhsb2NhAAAAAAAAAgQAAAAcbWF4cAAAAAAAAAIgAAAAIAAAAAEAAwABAAAADAAE\
    AEAAAAAMAAAAAAAAMEIwojExTgCfmP//AAAwQjCiMTFOAJ+Y///Pv89gztKyBGBtAAEAAAAAAAAAAAAAAAAAAQDIAGQD\
    IAJYAAMAAAEBAQEAyAAAAlgAAABkAfQAAP4MAAAAAQDIAGQDIAH0AAMAAAEBAQEAyAAAAlgAAABkAZAAAP5wAAAAAgBk\
    /84DhAJYAAMABwAAAQEBAQEBAQEAZAAAAyAAAP+cAAAAZAAAAfQAZAAA/5z92gKKAAD9dgABADIBGAO2AVQAAwAAAQEB\
    AQAyAAADhAAAARgAPAAA/8QAAAABADL/agO2Au4AAwAAAQEBAQAyAAADhAAA/2oDhAAA/HwAAAABAAAAAQAAAAAAAF8P\
    PPUAAAPoAAAAAAAAAAAAAAAAAAAAAAAA/zgD6AMgAAAACAACAAEAAAAAAAEAAAMg/zgAAAPoAAAAAAPoAAEAAAAAAAAA\
    AAAAAAAAAAAGA+gAAAPoAMgD6ADIA+gAZAPoADID6AAyAAAAAAAAAAAAAAAkAAAASAAAAIAAAACkAAAAyAABAAAABgBA\
    AAgAAAAAAAEAAAAAAAAAAAAAAAAAAAAA\
";

fn decode_base64(text: &str) -> Vec<u8> {
    let mut out = Vec::new();
    let (mut bits, mut n) = (0u32, 0);
    for c in text.chars() {
        let v = match c {
            'A'..='Z' => c as u32 - 'A' as u32,
            'a'..='z' => c as u32 - 'a' as u32 + 26,
            '0'..='9' => c as u32 - '0' as u32 + 52,
            '+' => 62,
            '/' => 63,
            _ => continue,
        };
        bits = (bits << 6) | v;
        n += 6;
        if n >= 8 {
            n -= 8;
            out.push((bits >> n) as u8);
            bits &= (1 << n) - 1;
        }
    }
    out
}

fn fonts() -> FontStack {
    FontStack::embedded(decode_base64(MONO), vec![decode_base64(WIDE)]).unwrap()
}

fn single(v: f32) -> Single {
    Single { bits: v.to_bits() }
}

fn ramp_of(name: &str) -> Vec<char> {
    resolve(name, &fonts()).unwrap().ramp().unwrap().to_vec()
}

#[test]
fn builtin_names_all_resolve() {
    for name in NAMED {
        match resolve(name, &fonts()).unwrap() {
            Charset::Ramp(ramp) => assert!(ramp.len() >= 2, "charset {name} too short"),
            Charset::Braille => assert_eq!(name, "braille"),
        }
    }
}

#[test]
fn named_covers_every_language_and_fixed_set() {
    let fixed_sets = ["simple", "complex", "blocks", "braille"];
    for (lang, _) in LANGUAGES {
        assert!(NAMED.contains(&lang), "{lang} missing from NAMED");
    }
    for fixed in fixed_sets {
        assert!(NAMED.contains(&fixed), "{fixed} missing from NAMED");
    }
    assert_eq!(NAMED.len(), LANGUAGES.len() + fixed_sets.len());
}

#[test]
fn simple_ends_light() {
    let ramp = ramp_of("simple");
    assert_eq!(*ramp.first().unwrap(), '@');
    assert_eq!(*ramp.last().unwrap(), ' ');
}

#[test]
fn density_sort_puts_space_last() {
    let ramp = ramp_of("english");
    assert_eq!(*ramp.last().unwrap(), ' ');
    // 'W' and 'M' are among the densest Latin glyphs; expect them early.
    let pos_w = ramp.iter().position(|&c| c == 'W').unwrap();
    let pos_i = ramp.iter().position(|&c| c == 'i').unwrap();
    assert!(pos_w < pos_i, "W should be denser than i");
}

#[test]
fn custom_charset_parses() {
    assert_eq!(ramp_of("custom:#. "), vec!['#', '.', ' ']);
    assert!(resolve("custom:x", &fonts()).is_err());
    assert!(resolve("nope", &fonts()).is_err());
}

#[test]
fn charset_errors_say_what_is_wrong() {
    let short = resolve("custom:x", &fonts()).unwrap_err();
    assert!(matches!(short, ResolveError::ShortCustom));
    assert_eq!(short.message(), "custom charset needs at least 2 characters (dark → light)");
    let unknown = resolve("klingon", &fonts()).unwrap_err();
    assert_eq!(
        unknown.message(),
        format!("unknown charset 'klingon'. Use one of {NAMED:?} or 'custom:<chars>'")
    );
}

#[test]
fn braille_is_its_own_mode() {
    let cs = resolve("braille", &fonts()).unwrap();
    assert_eq!(cs, Charset::Braille);
    assert!(cs.ramp().is_none());
    assert_eq!(cs.mode(), "braille");
}

#[test]
fn cjk_sets_sort_by_real_stroke_density() {
    // 龘 (48 strokes) must land far ahead of 一 (1 stroke); a font with no CJK
    // coverage would score both 0 and leave the input order.
    let ramp = ramp_of("chinese");
    let dense = ramp.iter().position(|&c| c == '龘').unwrap();
    let sparse = ramp.iter().position(|&c| c == '一').unwrap();
    assert!(dense < sparse, "龘 at {dense}, 一 at {sparse}");
    assert_eq!(*ramp.last().unwrap(), ' ');

    for name in ["korean", "japanese"] {
        let ramp = ramp_of(name);
        assert!(ramp.len() > 20, "{name} lost glyphs");
    }
}

#[test]
fn sorting_keeps_every_character_and_breaks_ties_by_code_point() {
    let ramp = density_sort("b.@\u{E001}\u{E000}.", &fonts());
    // '@' is the densest; the two without a glyph are equally empty.
    assert_eq!(ramp, vec!['@', 'b', '.', '.', '\u{E000}', '\u{E001}', ' ']);
}

#[test]
fn sorting_does_not_depend_on_the_order_given() {
    let ramp = density_sort("Ilx@.#", &fonts());
    assert_eq!(density_sort("#.@xlI", &fonts()), ramp);
    assert_eq!(density_sort("@I.l#x", &fonts()), ramp);
    assert_eq!(density_sort("", &fonts()), vec![' ']);
}

#[test]
fn glyphs_that_cannot_be_drawn_are_refused() {
    // Further out than the rasterizer can follow.
    assert!(fonts().try_coverage('@', single(2.0e6)).is_none());
    assert!(fonts().try_coverage('@', single(f32::INFINITY)).is_none());
    // However large the glyph, as long as it can be drawn.
    assert!(fonts().try_coverage('@', single(6000.0)).is_some());
    // Nowhere.
    let mut far = opts(Background::Black);
    far.metrics.ascent = single(f32::INFINITY);
    let grid = grid_of(&flat(0), 2, false);
    assert_eq!(paint_canvas(&grid, &fonts(), &far).unwrap_err(), PaintError::GlyphTooLarge);
    // Below the canvas, nothing of a glyph shows.
    far.metrics.ascent = single(2.0e7);
    let blank = paint_canvas(&grid, &fonts(), &far).unwrap();
    assert!(pixels(&blank).iter().all(|&p| p == [0, 0, 0, 255]));
}

#[test]
fn cells_without_pixels_make_an_empty_canvas() {
    let mut none = opts(Background::Black);
    none.metrics.width = 0;
    let img = paint_png(&grid_of(&flat(0), 2, false), &fonts(), &none).unwrap();
    assert_eq!(img.width(), 0);
}

#[test]
fn sorting_follows_the_fonts_it_is_given() {
    // In a stack without the full-width font the strokes of 龘 count for nothing.
    let latin = FontStack::embedded(decode_base64(MONO), vec![]).unwrap();
    let ramp = resolve_with("chinese", &latin).unwrap().ramp().unwrap().to_vec();
    let dense = ramp.iter().position(|&c| c == '龘').unwrap();
    let sparse = ramp.iter().position(|&c| c == '一').unwrap();
    assert!(sparse < dense);
}

#[test]
fn glyphs_cover_what_gets_painted() {
    assert_eq!(Charset::Braille.glyphs(), vec![BRAILLE_FULL, BRAILLE_BLANK]);
    assert_eq!(resolve("simple", &fonts()).unwrap().glyphs().len(), SIMPLE.chars().count());
}

#[test]
fn latin_resolves_to_the_primary_font() {
    let stack = fonts();
    assert_eq!(stack.locate('A').unwrap().font, 0);
    assert!(stack.locate('@').is_some());
}

#[test]
fn braille_is_absent_from_every_bundled_font() {
    let stack = fonts();
    for c in ['\u{2801}', '\u{28FF}', '\u{2847}'] {
        assert!(stack.locate(c).is_none(), "{c:?} unexpectedly has a glyph");
    }
}

#[test]
fn cjk_falls_back_to_the_noto_subset() {
    let stack = fonts();
    for c in ['龘', '一', 'あ', 'ア', 'ㄱ'] {
        let loc = stack.locate(c).unwrap_or_else(|| panic!("missing {c:?}"));
        assert_eq!(loc.font, 1, "{c:?} should come from the CJK fallback");
    }
}

#[test]
fn unknown_glyphs_are_reported_missing() {
    // U+E000 is a private-use codepoint no bundled font maps.
    assert!(fonts().locate('\u{E000}').is_none());
}

#[test]
fn located_characters_are_those_with_a_glyph() {
    let stack = fonts();
    let all = stack.locate_all(&vec!['A', '龘', '\u{E000}', 'A']);
    assert_eq!(all.len(), 2);
    assert_eq!(all.get(&('A' as u32)), stack.locate('A').as_ref());
    assert_eq!(all.get(&('龘' as u32)), stack.locate('龘').as_ref());
    // The numbers of the glyphs in the files.
    assert_eq!(stack.locate('A').unwrap().glyph, 34);
    assert_eq!(stack.locate('龘').unwrap().glyph, 5);
}

#[test]
fn ascii_metrics_match_the_monospace_advance() {
    let stack = fonts();
    let m = stack.cell_metrics(&vec!['@', '.', ' '], single(16.0));
    assert_eq!(m.width, 9); // the advance at 16 px
    // Monospace: every ASCII glyph must agree on the cell width.
    assert_eq!(stack.cell_metrics(&vec!['W', 'i', '|'], single(16.0)).width, m.width);
    assert!(m.height > m.width, "cells are taller than wide");
    let aspect = f32::from_bits(m.aspect().bits);
    assert!((aspect - 1.9).abs() < 0.2, "aspect {aspect}");
}

#[test]
fn metrics_are_those_of_the_font_file() {
    // 1233 units wide and 1901 above the baseline, of 1901 + 483 units in all.
    let m = fonts().cell_metrics(&vec!['x'], single(32.0));
    let scale = 32.0f32 / 2384.0;
    assert_eq!(m.width, (1233.0 * scale).ceil() as u32);
    assert_eq!(m.height, 32);
    assert_eq!(f32::from_bits(m.ascent.bits), 1901.0 * scale);
}

#[test]
fn cjk_metrics_widen_the_cell() {
    let stack = fonts();
    let latin = stack.cell_metrics(&vec!['@'], single(16.0));
    let cjk = stack.cell_metrics(&vec!['龘'], single(16.0));
    assert!(
        cjk.width > latin.width,
        "full-width glyphs need a wider cell ({} vs {})",
        cjk.width,
        latin.width
    );
}

#[test]
fn coverage_orders_dense_before_sparse() {
    let stack = fonts();
    let of = |c: char| f32::from_bits(stack.coverage(c, single(32.0)).bits);
    assert!(of('@') > of('.'));
    assert_eq!(of(' '), 0.0);
    // 900 by 900 units of a cell of 1000 by 1000.
    assert!((of('龘') - 0.81).abs() < 0.001, "{}", of('龘'));
    assert!((of('一') - 0.054).abs() < 0.001, "{}", of('一'));
}

#[test]
fn broken_fonts_are_rejected() {
    assert!(FontStack::embedded(vec![1, 2, 3], vec![]).is_err());
    assert!(FontStack::embedded(decode_base64(MONO), vec![vec![]]).is_err());
    assert!(fonts().with_font(vec![0; 64]).is_err());
}

#[test]
fn a_font_of_the_user_wins() {
    let stack = fonts().with_font(decode_base64(WIDE)).unwrap();
    assert_eq!(stack.locate('龘').unwrap().font, 0);
    assert_eq!(stack.locate('A').unwrap().font, 1);
    assert_eq!(stack.primary(), &decode_base64(WIDE));
    assert_eq!(stack.get(2), &decode_base64(WIDE));
}

fn simple() -> Charset {
    resolve("simple", &fonts()).unwrap()
}

fn opts(background: Background) -> PaintOptions {
    PaintOptions::new(&fonts(), &simple(), single(16.0)).unwrap().background(background).crop(false)
}

fn grid_of(src: &RgbaImage, width: u32, invert: bool) -> AsciiGrid {
    convert(src, &Options { width, invert, ..Options::default() }).unwrap()
}

fn flat(v: u8) -> RgbaImage {
    RgbaImage::from_pixel(64, 64, [v, v, v, 255])
}

fn pixels(img: &RgbaImage) -> Vec<[u8; 4]> {
    img.as_raw().chunks(4).map(|p| [p[0], p[1], p[2], p[3]]).collect()
}

#[test]
fn paints_expected_dimensions_and_ink() {
    let grid = grid_of(&flat(0), 8, false);
    let img = paint_png(&grid, &fonts(), &opts(Background::Black)).unwrap();
    assert_eq!(img.width() % grid.cols, 0);
    assert_eq!(img.height() % grid.rows, 0);
    // A black source maps to '@' glyphs: some pixels must be lit.
    assert!(pixels(&img).iter().any(|p| p[0] > 128));
    assert!(pixels(&img).iter().all(|p| p[3] == 255), "opaque bg stays opaque");
}

#[test]
fn white_source_paints_empty_canvas() {
    let grid = grid_of(&flat(255), 8, false);
    let img = paint_png(&grid, &fonts(), &opts(Background::Black)).unwrap();
    assert!(pixels(&img).iter().all(|p| *p == [0, 0, 0, 255]));
}

#[test]
fn colored_on_white_keeps_dark_ink_dark() {
    // Brightening must not apply on white backgrounds, or dark grays become
    // near-invisible pastels.
    let grid = grid_of(&flat(20), 8, false);
    let img = paint_png(&grid, &fonts(), &opts(Background::White).colored(true)).unwrap();
    let darkest = pixels(&img).iter().map(|p| p[0]).min().unwrap();
    assert!(darkest <= 30, "dark source ink washed out: {darkest}");
}

#[test]
fn colors_are_brightened_on_black() {
    // A full block covers its cell, so the ink is the color itself:
    // 40 * (1 + 0.7 * (255 / 40 - 1)) for the brightest channel.
    let grid = AsciiGrid {
        cols: 1,
        rows: 1,
        chars: vec!['█'],
        colors: vec![[40, 20, 0]],
        alphas: vec![255],
    };
    let blocks = resolve("blocks", &fonts()).unwrap();
    let paint = PaintOptions::new(&fonts(), &blocks, single(16.0)).unwrap().colored(true).crop(false);
    let img = paint_png(&grid, &fonts(), &paint).unwrap();
    let gain = 1.0f32 + 0.7 * (255.0 / 40.0 - 1.0);
    let expected = [(40.0 * gain) as u8, (20.0 * gain) as u8, 0, 255];
    assert_eq!(img.get_pixel(4, 8), expected);
}

#[test]
fn rejects_invalid_font_px() {
    for bad in [0.0, -5.0, f32::NAN, 4e7] {
        assert!(PaintOptions::new(&fonts(), &simple(), single(bad)).is_err(), "{bad}");
    }
    let e = PaintOptions::new(&fonts(), &simple(), single(0.5)).unwrap_err();
    assert_eq!(e, PaintError::FontPx(single(0.5)));
    assert_eq!(e.message(), "font_px must be between 1 and 512 (got 0.5)");
}

#[test]
fn rejects_absurd_canvases() {
    let grid = AsciiGrid {
        cols: 100_000,
        rows: 100_000,
        chars: vec![' '],
        colors: vec![[0, 0, 0]],
        alphas: vec![255],
    };
    let err = paint_canvas(&grid, &fonts(), &opts(Background::Black)).unwrap_err();
    assert!(err.message().contains("exceeds"), "{}", err.message());
    assert_eq!(err, PaintError::CanvasTooLarge(900_000, 1_600_000));
}

#[test]
fn missing_glyphs_paint_blank_not_tofu() {
    let opts_charset = Options {
        width: 8,
        // U+E000 is private-use: no bundled font maps it.
        charset: Charset::Ramp(vec!['\u{E000}', ' ']),
        ..Options::default()
    };
    let grid = convert(&flat(0), &opts_charset).unwrap();
    let paint =
        PaintOptions::new(&fonts(), &opts_charset.charset, single(16.0)).unwrap().crop(false);
    let img = paint_png(&grid, &fonts(), &paint).unwrap();
    assert!(pixels(&img).iter().all(|p| *p == [0, 0, 0, 255]));
}

#[test]
fn glyphs_stay_inside_their_cells() {
    // █ overshoots its advance box (its outline starts at x = -1 relative to the
    // cell); clipping must keep it out of the neighbor.
    let grid = AsciiGrid {
        cols: 2,
        rows: 1,
        chars: vec![' ', '█'],
        colors: vec![[0, 0, 0]; 2],
        alphas: vec![255; 2],
    };
    let blocks = resolve("blocks", &fonts()).unwrap();
    let paint = PaintOptions::new(&fonts(), &blocks, single(16.0))
        .unwrap()
        .background(Background::White)
        .crop(false);
    let img = paint_png(&grid, &fonts(), &paint).unwrap();
    let cell_w = img.width() / 2;
    // Every pixel of cell 0 (including its rightmost column, where the neighbor's
    // overshoot would land) must remain pure background.
    for y in 0..img.height() {
        for x in 0..cell_w {
            assert_eq!(img.get_pixel(x, y), [255, 255, 255, 255], "bleed at {x},{y}");
        }
    }
    // Sanity: the glyph itself did paint something in cell 1.
    assert!(pixels(&img).iter().any(|p| *p != [255, 255, 255, 255]));
}

fn centered() -> RgbaImage {
    let mut src = RgbaImage::from_pixel(64, 64, [255, 255, 255, 255]);
    for y in 24..40 {
        for x in 24..40 {
            src.put_pixel(x, y, [0, 0, 0, 255]);
        }
    }
    src
}

#[test]
fn crop_trims_blank_margins() {
    // Content only in the middle third: cropping must shrink the canvas but keep
    // every drawn pixel.
    let grid = grid_of(&centered(), 16, false);
    let full = paint_png(&grid, &fonts(), &opts(Background::Black)).unwrap();
    let cropped = paint_png(&grid, &fonts(), &opts(Background::Black).crop(true)).unwrap();
    assert!(cropped.width() < full.width(), "width not trimmed");
    assert!(cropped.height() < full.height(), "height not trimmed");
    let lit = |img: &RgbaImage| pixels(img).iter().filter(|p| p[0] > 0).count();
    assert_eq!(lit(&full), lit(&cropped), "cropping lost drawn pixels");
}

#[test]
fn cropping_twice_changes_nothing_more() {
    let grid = grid_of(&centered(), 16, false);
    let cropped = paint_png(&grid, &fonts(), &opts(Background::Black).crop(true)).unwrap();
    let all = Bounds { x0: 0, y0: 0, x1: cropped.width(), y1: cropped.height() };
    assert_eq!(content_bounds(&cropped, Background::Black), Some(all));
    assert_eq!(crop_to(&cropped, all).as_raw(), cropped.as_raw());
    assert_eq!((all.width(), all.height()), cropped.dimensions());
}

#[test]
fn crop_keeps_a_blank_canvas_intact() {
    let grid = grid_of(&flat(255), 8, false);
    let img = paint_png(&grid, &fonts(), &opts(Background::Black).crop(true)).unwrap();
    assert!(img.width() > 0 && img.height() > 0);
    assert!(content_bounds(&img, Background::Black).is_none());
}

#[test]
fn content_bounds_finds_the_drawn_box() {
    let mut img = RgbaImage::from_pixel(10, 10, [0, 0, 0, 255]);
    img.put_pixel(3, 4, [255, 255, 255, 255]);
    assert_eq!(
        content_bounds(&img, Background::Black),
        Some(Bounds { x0: 3, y0: 4, x1: 4, y1: 5 })
    );
    let empty = RgbaImage::from_pixel(4, 4, [0, 0, 0, 0]);
    assert_eq!(content_bounds(&empty, Background::Transparent), None);
}

#[test]
fn transparent_background_only_inks_glyphs() {
    let grid = grid_of(&flat(0), 8, false);
    let img = paint_png(&grid, &fonts(), &opts(Background::Transparent)).unwrap();
    assert!(pixels(&img).iter().any(|p| p[3] == 0), "no transparent pixels");
    assert!(pixels(&img).iter().any(|p| p[3] > 200), "no opaque glyph pixels");
    // Every visible pixel carries the ink color, not a dark halo.
    assert!(pixels(&img).iter().filter(|p| p[3] > 0).all(|p| p[..3] == [255, 255, 255]));
}

#[test]
fn transparent_cells_stay_invisible() {
    let mut src = RgbaImage::from_pixel(32, 32, [0, 0, 0, 0]);
    for y in 0..32 {
        for x in 0..16 {
            src.put_pixel(x, y, [0, 0, 0, 255]);
        }
    }
    let grid = convert(&src, &Options { width: 8, matte: None, ..Options::default() }).unwrap();
    let img = paint_png(&grid, &fonts(), &opts(Background::Transparent)).unwrap();
    // The right half of the canvas came from transparent cells.
    let right_half_lit = (img.width() / 2..img.width())
        .flat_map(|x| (0..img.height()).map(move |y| (x, y)))
        .any(|(x, y)| img.get_pixel(x, y)[3] != 0);
    assert!(!right_half_lit, "transparent cells painted ink");
}

#[test]
fn cjk_charsets_paint_real_glyphs() {
    let chinese = resolve("chinese", &fonts()).unwrap();
    let paint = PaintOptions::new(&fonts(), &chinese, single(16.0)).unwrap().crop(false);
    let grid = convert(
        &flat(0),
        &Options { width: 8, charset: chinese, ..Options::default() },
    )
    .unwrap();
    let img = paint_png(&grid, &fonts(), &paint).unwrap();
    let lit = pixels(&img).iter().filter(|p| p[0] > 128).count();
    assert!(lit > 100, "CJK charset painted {lit} pixels; blanks?");
}

#[test]
fn braille_paints_from_the_primary_font() {
    let grid = convert(
        &flat(0),
        &Options { width: 8, charset: Charset::Braille, ..Options::default() },
    )
    .unwrap();
    let paint = PaintOptions::new(&fonts(), &Charset::Braille, single(16.0)).unwrap().crop(false);
    let img = paint_png(&grid, &fonts(), &paint).unwrap();
    assert!(pixels(&img).iter().filter(|p| p[0] > 128).count() > 50);
}

#[test]
fn braille_dots_light_the_right_half_of_the_cell() {
    // Only the dots of the right column: the left half of the cell stays dark.
    let grid = AsciiGrid {
        cols: 1,
        rows: 1,
        chars: vec!['\u{28B8}'],
        colors: vec![[0, 0, 0]],
        alphas: vec![255],
    };
    let paint = PaintOptions::new(&fonts(), &Charset::Braille, single(32.0)).unwrap().crop(false);
    let img = paint_png(&grid, &fonts(), &paint).unwrap();
    let lit = |x0: u32, x1: u32| {
        (x0..x1)
            .flat_map(|x| (0..img.height()).map(move |y| (x, y)))
            .filter(|&(x, y)| img.get_pixel(x, y)[0] > 128)
            .count()
    };
    let half = img.width() / 2;
    assert_eq!(lit(0, half - 1), 0);
    assert!(lit(half, img.width()) > 20);
    assert!(is_braille('\u{28B8}') && !is_braille('A') && !is_braille('\u{2900}'));
}

#[test]
fn smallest_braille_cells_show_their_pattern() {
    let bit = [[0x01, 0x08], [0x02, 0x10], [0x04, 0x20], [0x40, 0x80]];
    let mut paint = PaintOptions::new(&fonts(), &Charset::Braille, single(16.0)).unwrap();
    paint.crop = false;
    paint.metrics.width = 2;
    paint.metrics.height = 4;
    for bits in 1..=255u32 {
        let grid = AsciiGrid {
            cols: 1,
            rows: 1,
            chars: vec![char::from_u32(0x2800 + bits).unwrap()],
            colors: vec![[0, 0, 0]],
            alphas: vec![255],
        };
        let img = paint_canvas(&grid, &fonts(), &paint).unwrap();
        assert_eq!(img.dimensions(), (2, 4));
        for y in 0..4 {
            for x in 0..2 {
                let v = if bits & bit[y][x] != 0 { 255 } else { 0 };
                assert_eq!(img.get_pixel(x as u32, y as u32), [v, v, v, 255], "{bits} {x},{y}");
            }
        }
    }
}

#[test]
fn colored_ink_is_no_more_opaque_than_its_cell() {
    for alpha in [1, 63, 64, 127, 200, 254, 255] {
        let grid = AsciiGrid {
            cols: 2,
            rows: 1,
            chars: vec!['@', '\u{28FF}'],
            colors: vec![[255, 0, 0], [0, 0, 255]],
            alphas: vec![alpha, 255],
        };
        let paint = opts(Background::Transparent).colored(true);
        let img = paint_canvas(&grid, &fonts(), &paint).unwrap();
        let half = img.width() / 2;
        let mut most = 0;
        for y in 0..img.height() {
            for x in 0..img.width() {
                let p = img.get_pixel(x, y);
                let ink = if x < half { [255, 0, 0] } else { [0, 0, 255] };
                assert!(p == [0, 0, 0, 0] || p[..3] == ink, "{p:?}");
                if x < half {
                    assert!(p[3] <= alpha);
                    most = most.max(p[3]);
                }
            }
        }
        assert_eq!(most, alpha, "no pixel of '@' is fully covered");
    }
}

#[test]
fn glyph_ink_is_that_of_the_outline() {
    // A box of 900 by 900 units in a font of 1000 by 1000: at 20 px every unit is
    // a fiftieth of a pixel, so the box has 18 by 18 full pixels, one pixel from
    // the left and one from the top.
    let stack = FontStack::embedded(decode_base64(WIDE), vec![]).unwrap();
    let charset = Charset::Ramp(vec!['龘', ' ']);
    let paint = PaintOptions::new(&stack, &charset, single(20.0)).unwrap().crop(false);
    let grid = AsciiGrid {
        cols: 1,
        rows: 1,
        chars: vec!['龘'],
        colors: vec![[0, 0, 0]],
        alphas: vec![255],
    };
    let img = paint_png(&grid, &stack, &paint).unwrap();
    assert_eq!(img.dimensions(), (20, 20));
    for y in 0..20 {
        for x in 0..20 {
            let inside = (1..19).contains(&x) && (1..19).contains(&y);
            let v = if inside { 255 } else { 0 };
            assert_eq!(img.get_pixel(x, y), [v, v, v, 255], "{x},{y}");
        }
    }
}

#[test]
fn backgrounds_know_their_colors() {
    assert_eq!(Background::Black.fill(), [0, 0, 0, 255]);
    assert_eq!(Background::White.fill(), [255, 255, 255, 255]);
    assert_eq!(Background::Transparent.fill(), [0, 0, 0, 0]);
    assert_eq!(Background::Black.ink(), [255, 255, 255]);
    assert_eq!(Background::White.ink(), [0, 0, 0]);
    assert_eq!(Background::Black.matte(), Some([0, 0, 0]));
    assert_eq!(Background::White.matte(), Some([255, 255, 255]));
    assert_eq!(Background::Transparent.matte(), None);
}
